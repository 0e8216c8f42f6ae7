//! Deterministic "numbers station" text: six groups of five decimal digits,
//! digits within a group separated by one space, groups by two.
use vstd::prelude::*;
use vstd::string::{StrSliceExecFns, StringExecFns};

verus! {

/// Number of digit groups in a sequence.
const GROUPS: usize = 6;

/// Number of digits in a group.
const GROUP_LEN: usize = 5;

/// The state a generator starts from: a zero seed, which xorshift would never
/// leave, is replaced by a fixed non-zero constant.
pub open spec fn initial_state(seed: u64) -> u64 {
    if seed == 0 {
        0x9E37_79B9_7F4A_7C15u64
    } else {
        seed
    }
}

/// One xorshift64 step (shifts 13, 7, 17).
pub open spec fn xorshift_step(x: u64) -> u64 {
    let a = x ^ (x << 13u64);
    let b = a ^ (a >> 7u64);
    b ^ (b << 17u64)
}

/// The generator state after `n` steps.
pub open spec fn state_after(seed: u64, n: nat) -> u64
    decreases n,
{
    if n == 0 {
        initial_state(seed)
    } else {
        xorshift_step(state_after(seed, (n - 1) as nat))
    }
}

/// Digit number `n` (from 0) drawn from the generator: the high 32 bits of the
/// state after `n + 1` steps, modulo 10.
pub open spec fn digit(seed: u64, n: nat) -> u8 {
    (((state_after(seed, n + 1) >> 32u64) as u32) % 10) as u8
}

/// The character of a decimal digit.
pub open spec fn digit_char(d: u8) -> char {
    (48 + d) as char
}

/// The first `i` digits of group `g`, separated by single spaces.
pub open spec fn group_text(seed: u64, g: nat, i: nat) -> Seq<char>
    decreases i,
{
    if i == 0 {
        Seq::empty()
    } else {
        let sep = if i > 1 {
            seq![' ']
        } else {
            Seq::empty()
        };
        group_text(seed, g, (i - 1) as nat) + sep + seq![
            digit_char(digit(seed, g * 5 + (i - 1) as nat)),
        ]
    }
}

/// The first `g` groups, separated by double spaces.
pub open spec fn groups_text(seed: u64, g: nat) -> Seq<char>
    decreases g,
{
    if g == 0 {
        Seq::empty()
    } else {
        let sep = if g > 1 {
            seq![' ', ' ']
        } else {
            Seq::empty()
        };
        groups_text(seed, (g - 1) as nat) + sep + group_text(seed, (g - 1) as nat, 5)
    }
}

/// The sequence that a seed gives.
pub open spec fn sequence_text(seed: u64) -> Seq<char> {
    groups_text(seed, 6)
}

/// Tiny deterministic generator.
struct XorShift64 {
    state: u64,
}

impl XorShift64 {
    fn new(seed: u64) -> (r: Self)
        ensures
            r.state == initial_state(seed),
    {
        let s = if seed == 0 {
            0x9E37_79B9_7F4A_7C15
        } else {
            seed
        };
        Self { state: s }
    }

    fn next_u32(&mut self) -> (r: u32)
        ensures
            final(self).state == xorshift_step(old(self).state),
            r == (final(self).state >> 32u64) as u32,
    {
        let mut x = self.state;
        x ^= x << 13;
        x ^= x >> 7;
        x ^= x << 17;
        self.state = x;
        (x >> 32) as u32
    }
}

/// The same seed gives the same sequence.
pub proof fn lemma_deterministic(seed1: u64, seed2: u64)
    requires
        seed1 == seed2,
    ensures
        sequence_text(seed1) == sequence_text(seed2),
{
}

/// Generates a numbers-station sequence from a seed.
pub fn generate_sequence(seed: u64) -> (r: String)
    ensures
        r@ == sequence_text(seed),
{
    let digits = "0123456789";
    proof {
        reveal_strlit("0123456789");
    }
    assert(digits@.len() == 10);
    assert(forall|j: int| 0 <= j < 10 ==> #[trigger] digits@[j] == digit_char(j as u8));
    let mut rng = XorShift64::new(seed);
    let mut out = String::new();
    let mut g: usize = 0;
    while g < GROUPS
        invariant
            g <= GROUPS,
            digits@.len() == 10,
            forall|j: int| 0 <= j < 10 ==> #[trigger] digits@[j] == digit_char(j as u8),
            rng.state == state_after(seed, (g * GROUP_LEN) as nat),
            out@ == groups_text(seed, g as nat),
        decreases GROUPS - g,
    {
        let ghost o0 = out@;
        if g > 0 {
            proof {
                reveal_strlit("  ");
            }
            out.append("  ");
        }
        assert(out@ =~= o0 + if g > 0 {
            seq![' ', ' ']
        } else {
            Seq::<char>::empty()
        });
        let ghost before = out@;
        assert(out@ =~= before + group_text(seed, g as nat, 0));
        let mut i: usize = 0;
        while i < GROUP_LEN
            invariant
                g < GROUPS,
                i <= GROUP_LEN,
                digits@.len() == 10,
            forall|j: int| 0 <= j < 10 ==> #[trigger] digits@[j] == digit_char(j as u8),
                rng.state == state_after(seed, (g * GROUP_LEN + i) as nat),
                out@ == before + group_text(seed, g as nat, i as nat),
            decreases GROUP_LEN - i,
        {
            let ghost o1 = out@;
            if i > 0 {
                proof {
                    reveal_strlit(" ");
                }
                out.append(" ");
            }
            assert(out@ =~= o1 + if i > 0 {
                seq![' ']
            } else {
                Seq::<char>::empty()
            });
            let d = (rng.next_u32() % 10) as usize;
            assert(d as u8 == digit(seed, (g * GROUP_LEN + i) as nat));
            let piece = digits.substring_char(d, d + 1);
            assert(piece@ =~= seq![digit_char(d as u8)]);
            out.append(piece);
            assert(out@ =~= before + group_text(seed, g as nat, (i + 1) as nat));
            i += 1;
        }
        assert(out@ =~= groups_text(seed, (g + 1) as nat));
        g += 1;
    }
    out
}

} // verus!
