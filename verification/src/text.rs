//! The text form of a number: its eight words, lowest first, each as eight
//! lowercase hexadecimal digits.
use crate::fixed::ArbitraryFixed;
use vstd::prelude::*;

verus! {

/// The hexadecimal digit of a value below 16.
pub open spec fn hex_char(d: nat) -> char {
    if d < 10 {
        (48 + d) as char
    } else {
        (87 + d) as char
    }
}

/// A word as eight hexadecimal digits, the most significant first.
pub open spec fn hex_word(w: u32) -> Seq<char> {
    Seq::new(8, |i: int| hex_char(((w as nat) / pow16((7 - i) as nat)) % 16))
}

/// 16 to the power `k`.
pub open spec fn pow16(k: nat) -> nat
    decreases k,
{
    if k == 0 {
        1
    } else {
        16 * pow16((k - 1) as nat)
    }
}

/// Every power of 16 is positive.
proof fn lemma_pow16_pos(k: nat)
    ensures
        pow16(k) >= 1,
    decreases k,
{
    if k > 0 {
        lemma_pow16_pos((k - 1) as nat);
    }
}

/// The first `n` words, each as eight hexadecimal digits, separated by a
/// comma and a space.
pub open spec fn hex_words(words: Seq<u32>, n: nat) -> Seq<char>
    decreases n,
{
    if n == 0 {
        Seq::empty()
    } else if n == 1 {
        hex_word(words[0])
    } else {
        hex_words(words, (n - 1) as nat) + ", "@ + hex_word(words[n - 1])
    }
}

/// The text of a number: `ArbitraryFixed { data: [w0, w1, ..., w7] }`, each
/// word as eight lowercase hexadecimal digits.
pub open spec fn debug_text(x: ArbitraryFixed) -> Seq<char> {
    "ArbitraryFixed { data: ["@ + hex_words(x.data@, 8) + "] }"@
}

/// The one-character text of a hexadecimal digit.
fn hex_digit(d: u32) -> (s: &'static str)
    requires
        d < 16,
    ensures
        s@ == seq![hex_char(d as nat)],
{
    proof {
        reveal_strlit("0");
        reveal_strlit("1");
        reveal_strlit("2");
        reveal_strlit("3");
        reveal_strlit("4");
        reveal_strlit("5");
        reveal_strlit("6");
        reveal_strlit("7");
        reveal_strlit("8");
        reveal_strlit("9");
        reveal_strlit("a");
        reveal_strlit("b");
        reveal_strlit("c");
        reveal_strlit("d");
        reveal_strlit("e");
        reveal_strlit("f");
    }
    let s = match d {
        0 => "0",
        1 => "1",
        2 => "2",
        3 => "3",
        4 => "4",
        5 => "5",
        6 => "6",
        7 => "7",
        8 => "8",
        9 => "9",
        10 => "a",
        11 => "b",
        12 => "c",
        13 => "d",
        14 => "e",
        _ => "f",
    };
    assert(s@ =~= seq![hex_char(d as nat)]);
    s
}

/// Appends a word as eight hexadecimal digits.
fn push_hex_word(s: &mut String, w: u32)
    ensures
        final(s)@ == old(s)@ + hex_word(w),
{
    let ghost start = s@;
    let mut p: u32 = 0x1000_0000;
    let mut k: u32 = 0;
    proof {
        reveal_with_fuel(pow16, 8);
    }
    while k < 8
        invariant
            k <= 8,
            k < 8 ==> p == pow16((7 - k) as nat),
            s@ == start + hex_word(w).take(k as int),
        decreases 8 - k,
    {
        proof {
            lemma_pow16_pos((7 - k) as nat);
        }
        let d = (w / p) % 16;
        let digit = hex_digit(d);
        let ghost before = s@;
        s.append(digit);
        proof {
            assert(hex_word(w)[k as int] == hex_char(d as nat));
            assert(hex_word(w).take(k + 1) =~= hex_word(w).take(k as int).push(hex_char(d as nat)));
            assert(s@ =~= start + hex_word(w).take(k + 1));
        }
        if k < 7 {
            proof {
                assert(pow16((7 - k) as nat) == 16 * pow16((6 - k) as nat));
                lemma_pow16_pos((6 - k) as nat);
            }
            p = p / 16;
        }
        k = k + 1;
    }
    assert(hex_word(w).take(8) =~= hex_word(w));
}

impl ArbitraryFixed {
    /// The text of the number: its eight words, lowest first, each as eight
    /// lowercase hexadecimal digits, as in
    /// `ArbitraryFixed { data: [00000000, ..., 00000000] }`.
    pub fn debug_string(&self) -> (s: String)
        ensures
            s@ == debug_text(*self),
    {
        let mut s = String::from_str("ArbitraryFixed { data: [");
        let mut i: usize = 0;
        while i < 8
            invariant
                i <= 8,
                s@ == "ArbitraryFixed { data: ["@ + hex_words(self.data@, i as nat),
            decreases 8 - i,
        {
            if i > 0 {
                s.append(", ");
            }
            push_hex_word(&mut s, self.data[i]);
            proof {
                assert(s@ =~= "ArbitraryFixed { data: ["@ + hex_words(self.data@, (i + 1) as nat));
            }
            i = i + 1;
        }
        s.append("] }");
        s
    }
}

/// The value of a lowercase hexadecimal digit: `'0'..='9'` stand for 0 to
/// 9 and `'a'..='f'` for 10 to 15; any other character is no digit.
pub open spec fn hex_value(c: char) -> Option<nat> {
    if ('0' as nat) <= (c as nat) <= ('9' as nat) {
        Some((c as nat - '0' as nat) as nat)
    } else if ('a' as nat) <= (c as nat) <= ('f' as nat) {
        Some((c as nat - 'a' as nat + 10) as nat)
    } else {
        None
    }
}

/// The number that a string of lowercase hexadecimal digits spells, most
/// significant first; `None` when a character is no such digit.
pub open spec fn parse_hex(s: Seq<char>) -> Option<nat>
    decreases s.len(),
{
    if s.len() == 0 {
        Some(0)
    } else {
        match (parse_hex(s.drop_last()), hex_value(s.last())) {
            (Some(v), Some(d)) => Some(v * 16 + d),
            _ => None,
        }
    }
}

/// Each digit character reads back as its digit.
proof fn lemma_hex_char_value(d: nat)
    requires
        d < 16,
    ensures
        hex_value(hex_char(d)) == Some(d),
{
}

/// Reading the first `k` digits of a word gives the word without its last
/// `8 - k` digits.
proof fn lemma_parse_word_prefix(w: u32, k: nat)
    requires
        k <= 8,
    ensures
        parse_hex(hex_word(w).take(k as int)) == Some((w as nat) / pow16((8 - k) as nat)),
    decreases k,
{
    reveal_with_fuel(pow16, 9);
    if k == 0 {
        assert(hex_word(w).take(0) =~= Seq::<char>::empty());
        assert((w as nat) < 0x1_0000_0000);
        assert(pow16(8) == 0x1_0000_0000);
        vstd::arithmetic::div_mod::lemma_basic_div(w as int, 0x1_0000_0000);
    } else {
        lemma_parse_word_prefix(w, (k - 1) as nat);
        let t = hex_word(w).take(k as int);
        assert(t.drop_last() =~= hex_word(w).take(k - 1));
        let p = pow16((8 - k) as nat);
        lemma_pow16_pos((8 - k) as nat);
        let y = (w as nat) / p;
        let dg = y % 16;
        assert(t.last() == hex_char(dg));
        lemma_hex_char_value(dg);
        assert(pow16((9 - k) as nat) == p * 16);
        vstd::arithmetic::div_mod::lemma_div_denominator(w as int, p as int, 16);
        vstd::arithmetic::div_mod::lemma_fundamental_div_mod(y as int, 16);
        assert(parse_hex(t.drop_last()) == Some(y / 16));
        assert(parse_hex(t) == Some((y / 16) * 16 + dg));
        assert((y / 16) * 16 + dg == y);
    }
}

/// A word's eight digits read back as the word.
proof fn lemma_parse_word(w: u32)
    ensures
        parse_hex(hex_word(w)) == Some(w as nat),
{
    lemma_parse_word_prefix(w, 8);
    assert(hex_word(w).take(8) =~= hex_word(w));
    assert(pow16(0) == 1);
    assert((w as nat) / 1 == w as nat);
}

/// Digits of word `i` within the words' text.
spec fn inner_field(t: Seq<char>, i: int) -> Seq<char> {
    t.subrange(10 * i, 10 * i + 8)
}

/// The separator after word `i` within the words' text.
spec fn inner_separator(t: Seq<char>, i: int) -> Seq<char> {
    t.subrange(10 * i + 8, 10 * i + 10)
}

/// The text of the first `n` words: eight digits for each word, and two
/// characters between neighbours.
proof fn lemma_words_layout(data: Seq<u32>, n: nat)
    requires
        1 <= n <= data.len(),
    ensures
        hex_words(data, n).len() == 10 * n - 2,
        forall|i: int| 0 <= i < n ==> #[trigger] inner_field(hex_words(data, n), i) == hex_word(data[i]),
        forall|i: int| 0 <= i < n - 1 ==> #[trigger] inner_separator(hex_words(data, n), i) == ", "@,
    decreases n,
{
    reveal_strlit(", ");
    if n == 1 {
        assert(inner_field(hex_words(data, 1), 0) =~= hex_word(data[0]));
    } else {
        lemma_words_layout(data, (n - 1) as nat);
        let a = hex_words(data, (n - 1) as nat);
        let t = hex_words(data, n);
        assert(t == a + ", "@ + hex_word(data[n - 1]));
        assert forall|i: int| 0 <= i < n implies #[trigger] inner_field(t, i) == hex_word(data[i]) by {
            if i < n - 1 {
                assert(inner_field(t, i) =~= inner_field(a, i));
            } else {
                assert(inner_field(t, i) =~= hex_word(data[n - 1]));
            }
        }
        assert forall|i: int| 0 <= i < n - 1 implies #[trigger] inner_separator(t, i) == ", "@ by {
            if i < n - 2 {
                assert(inner_separator(t, i) =~= inner_separator(a, i));
            } else {
                assert(inner_separator(t, i) =~= ", "@);
            }
        }
    }
}

/// The digits of word `i` in the text of a number.
pub open spec fn word_field(t: Seq<char>, i: int) -> Seq<char> {
    t.subrange(24 + 10 * i, 32 + 10 * i)
}

/// The two characters after the digits of word `i` in the text of a number.
pub open spec fn separator_field(t: Seq<char>, i: int) -> Seq<char> {
    t.subrange(32 + 10 * i, 34 + 10 * i)
}

/// The text of a number is `ArbitraryFixed { data: [`, then its eight words
/// in order, each as exactly eight lowercase hexadecimal digits that read
/// back as the word, separated by `, `, and then `] }`.
pub proof fn law_debug_text(x: ArbitraryFixed)
    ensures
        debug_text(x).len() == 105,
        debug_text(x).subrange(0, 24) == "ArbitraryFixed { data: ["@,
        forall|i: int|
            0 <= i < 8 ==> parse_hex(#[trigger] word_field(debug_text(x), i)) == Some(
                x.data[i] as nat,
            ),
        forall|i: int| 0 <= i < 7 ==> #[trigger] separator_field(debug_text(x), i) == ", "@,
        debug_text(x).subrange(102, 105) == "] }"@,
{
    reveal_strlit("ArbitraryFixed { data: [");
    reveal_strlit("] }");
    reveal_strlit(", ");
    let d = x.data@;
    lemma_words_layout(d, 8);
    let h = hex_words(d, 8);
    let pre = "ArbitraryFixed { data: ["@;
    let t = debug_text(x);
    assert(t == pre + h + "] }"@);
    assert(t.subrange(0, 24) =~= pre);
    assert(t.subrange(102, 105) =~= "] }"@);
    assert forall|i: int| 0 <= i < 8 implies parse_hex(#[trigger] word_field(t, i)) == Some(
        x.data[i] as nat,
    ) by {
        assert(word_field(t, i) =~= inner_field(h, i));
        lemma_parse_word(x.data[i]);
    }
    assert forall|i: int| 0 <= i < 7 implies #[trigger] separator_field(t, i) == ", "@ by {
        assert(separator_field(t, i) =~= inner_separator(h, i));
    }
}

} // verus!
