use vstd::prelude::*;
use vstd::string::StringExecFns;

verus! {

/// The character of a decimal digit.
pub open spec fn digit_char(d: nat) -> char {
    if d == 0 {
        '0'
    } else if d == 1 {
        '1'
    } else if d == 2 {
        '2'
    } else if d == 3 {
        '3'
    } else if d == 4 {
        '4'
    } else if d == 5 {
        '5'
    } else if d == 6 {
        '6'
    } else if d == 7 {
        '7'
    } else if d == 8 {
        '8'
    } else {
        '9'
    }
}

/// The decimal digits of `n`, without leading zeros.
pub open spec fn decimal(n: nat) -> Seq<char>
    decreases n,
{
    if n < 10 {
        seq![digit_char(n)]
    } else {
        decimal(n / 10).push(digit_char(n % 10))
    }
}

/// Whether a text holds no escape character, so that it cannot carry a
/// terminal control sequence.
pub open spec fn no_escape(s: Seq<char>) -> bool {
    forall|i: int| 0 <= i < s.len() ==> s[i] != '\u{1b}'
}

pub proof fn lemma_decimal_no_escape(n: nat)
    ensures
        no_escape(decimal(n)),
        decimal(n).len() > 0,
    decreases n,
{
    if n >= 10 {
        lemma_decimal_no_escape(n / 10);
        let s = decimal(n);
        assert forall|i: int| 0 <= i < s.len() implies s[i] != '\u{1b}' by {
            if i < s.len() - 1 {
                assert(s[i] == decimal(n / 10)[i]);
            }
        }
    }
}

/// The text of one decimal digit.
fn digit_str(d: u8) -> (r: &'static str)
    requires
        d < 10,
    ensures
        r@ == seq![digit_char(d as nat)],
{
    proof {
        reveal_strlit("0");
        reveal_strlit("1");
        reveal_strlit("2");
        reveal_strlit("3");
        reveal_strlit("4");
        reveal_strlit("5");
        reveal_strlit("6");
        reveal_strlit("7");
        reveal_strlit("8");
        reveal_strlit("9");
    }
    match d {
        0 => "0",
        1 => "1",
        2 => "2",
        3 => "3",
        4 => "4",
        5 => "5",
        6 => "6",
        7 => "7",
        8 => "8",
        _ => "9",
    }
}

/// The decimal digits of `n`.
pub fn decimal_text(n: u64) -> (r: String)
    ensures
        r@ == decimal(n as nat),
{
    if n == 0 {
        proof {
            reveal_strlit("0");
        }
        return String::from_str("0");
    }
    // Digits are found least significant first and written out in reverse.
    let mut digits: Vec<u8> = Vec::new();
    let ghost mut tail: Seq<char> = Seq::empty();
    let mut m: u64 = n;
    while m > 0
        invariant
            m > 0 ==> decimal(n as nat) == decimal(m as nat) + tail,
            m == 0 ==> decimal(n as nat) == tail,
            tail.len() == digits@.len(),
            forall|i: int| 0 <= i < digits@.len() ==> digits@[i] < 10,
            forall|k: int|
                0 <= k < tail.len() ==> tail[k] == digit_char(#[trigger] digits@[digits@.len() - 1 - k] as nat),
        decreases m,
    {
        let d: u8 = (m % 10) as u8;
        proof {
            let ghost old_tail = tail;
            if m >= 10 {
                assert(decimal(m as nat) == decimal((m / 10) as nat).push(digit_char(d as nat)));
                assert(decimal(m as nat) + old_tail =~= decimal((m / 10) as nat) + (seq![digit_char(d as nat)]
                    + old_tail));
            } else {
                assert(decimal(m as nat) == seq![digit_char(d as nat)]);
            }
            tail = seq![digit_char(d as nat)] + old_tail;
        }
        let ghost before = digits@;
        digits.push(d);
        proof {
            assert forall|k: int| 0 <= k < tail.len() implies tail[k] == digit_char(
                #[trigger] digits@[digits@.len() - 1 - k] as nat,
            ) by {
                if k > 0 {
                    assert(digits@[digits@.len() - 1 - k] == before[before.len() - 1 - (k - 1)]);
                }
            }
        }
        m = m / 10;
    }
    let mut r = String::new();
    let mut k: usize = digits.len();
    while k > 0
        invariant
            k <= digits@.len(),
            tail.len() == digits@.len(),
            forall|i: int| 0 <= i < digits@.len() ==> digits@[i] < 10,
            forall|j: int|
                0 <= j < tail.len() ==> tail[j] == digit_char(#[trigger] digits@[digits@.len() - 1 - j] as nat),
            r@ == tail.take(digits@.len() - k),
        decreases k,
    {
        k = k - 1;
        r.append(digit_str(digits[k]));
        proof {
            let j = digits@.len() - 1 - k;
            assert(tail[j] == digit_char(digits@[digits@.len() - 1 - j] as nat));
            assert(digits@.len() - 1 - j == k);
            assert(tail.take(j + 1) =~= tail.take(j).push(tail[j]));
        }
    }
    proof {
        assert(tail.take(tail.len() as int) =~= tail);
    }
    r
}

/// A terminal colour start sequence: escape, `[`, then digits and `;`,
/// ending in `m`.
pub open spec fn is_color_start(p: Seq<char>) -> bool {
    &&& p.len() >= 3
    &&& p[0] == '\u{1b}'
    &&& p[1] == '['
    &&& p[p.len() - 1] == 'm'
    &&& forall|i: int| 2 <= i < p.len() - 1 ==> ('0' <= #[trigger] p[i] <= '9' || p[i] == ';')
}

/// The sequence that resets terminal colours.
pub open spec fn reset_sequence() -> Seq<char> {
    seq!['\u{1b}', '[', '0', 'm']
}

/// `s` shows `text`: either `text` itself, or `text` between a colour start
/// sequence and the reset sequence.
pub open spec fn colored_text(s: Seq<char>, text: Seq<char>) -> bool {
    s == text || exists|pre: Seq<char>| #[trigger] is_color_start(pre) && s == pre + text + reset_sequence()
}

/// `k` dashes.
pub open spec fn dashes(k: nat) -> Seq<char>
    decreases k,
{
    if k == 0 {
        Seq::empty()
    } else {
        dashes((k - 1) as nat) + "-"@
    }
}

} // verus!
