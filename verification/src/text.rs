//! Text: splitting it, joining it, and writing numbers.
use itertools::Itertools;
use vstd::prelude::*;

verus! {

/// The characters of a text.
pub fn chars_of(text: &str) -> (r: Vec<char>)
    ensures
        r@ == text@,
{
    let mut r: Vec<char> = Vec::new();
    for c in iter: text.chars()
        invariant
            iter.seq() == text@,
            r@ == text@.take(iter.index()),
    {
        r.push(c);
        assert(text@.take(iter.index() + 1) =~= text@.take(iter.index()).push(c));
    }
    assert(text@.take(text@.len() as int) =~= text@);
    r
}

/// Whether `i` is where `c` first stands in a text.
pub open spec fn is_first(text: Seq<char>, c: char, i: int) -> bool {
    &&& 0 <= i < text.len()
    &&& text[i] == c
    &&& forall|j: int| 0 <= j < i ==> text[j] != c
}

/// Whether `i` is where `c` last stands in a text.
pub open spec fn is_last(text: Seq<char>, c: char, i: int) -> bool {
    &&& 0 <= i < text.len()
    &&& text[i] == c
    &&& forall|j: int| i < j < text.len() ==> text[j] != c
}

/// What stands before and behind the first `c` of a text.
pub open spec fn split_first(text: Seq<char>, c: char) -> Option<(Seq<char>, Seq<char>)> {
    if text.contains(c) {
        let i = choose|i: int| is_first(text, c, i);
        Some((text.take(i), text.skip(i + 1)))
    } else {
        None
    }
}

/// What stands before and behind the last `c` of a text.
pub open spec fn split_last(text: Seq<char>, c: char) -> Option<(Seq<char>, Seq<char>)> {
    if text.contains(c) {
        let i = choose|i: int| is_last(text, c, i);
        Some((text.take(i), text.skip(i + 1)))
    } else {
        None
    }
}

/// A text is split where the character first stands.
pub proof fn lemma_split_first_at(text: Seq<char>, c: char, i: int)
    requires
        is_first(text, c, i),
    ensures
        split_first(text, c) == Some((text.take(i), text.skip(i + 1))),
{
    assert(text.contains(c));
    let k = choose|k: int| is_first(text, c, k);
    assert(is_first(text, c, k));
    assert(k == i);
}

/// A text is split where the character last stands.
pub proof fn lemma_split_last_at(text: Seq<char>, c: char, i: int)
    requires
        is_last(text, c, i),
    ensures
        split_last(text, c) == Some((text.take(i), text.skip(i + 1))),
{
    assert(text.contains(c));
    let k = choose|k: int| is_last(text, c, k);
    assert(is_last(text, c, k));
    assert(k == i);
}

/// A text that is put together around a character is split there, if the
/// character does not stand before it.
pub proof fn lemma_split_first_of(front: Seq<char>, c: char, back: Seq<char>)
    requires
        !front.contains(c),
    ensures
        split_first(front + seq![c] + back, c) == Some((front, back)),
{
    let text = front + seq![c] + back;
    assert forall|j: int| 0 <= j < front.len() implies text[j] != c by {
        assert(text[j] == front[j]);
    }
    lemma_split_first_at(text, c, front.len() as int);
    assert(text.take(front.len() as int) =~= front);
    assert(text.skip(front.len() as int + 1) =~= back);
}

/// A text that is put together around a character is split there, if the
/// character does not stand behind it.
pub proof fn lemma_split_last_of(front: Seq<char>, c: char, back: Seq<char>)
    requires
        !back.contains(c),
    ensures
        split_last(front + seq![c] + back, c) == Some((front, back)),
{
    let text = front + seq![c] + back;
    assert forall|j: int| front.len() < j < text.len() implies text[j] != c by {
        assert(text[j] == back[j - front.len() - 1]);
    }
    lemma_split_last_at(text, c, front.len() as int);
    assert(text.take(front.len() as int) =~= front);
    assert(text.skip(front.len() as int + 1) =~= back);
}

/// What stands before and behind a split is shorter than the text.
pub proof fn lemma_split_first_shorter(text: Seq<char>, c: char)
    ensures
        split_first(text, c) matches Some((front, back)) ==> {
            &&& front.len() + 1 + back.len() == text.len()
            &&& !front.contains(c)
        },
{
    if text.contains(c) {
        lemma_first_exists(text, c);
        let i = choose|i: int| is_first(text, c, i);
        assert(is_first(text, c, i));
        assert(!text.take(i).contains(c));
    }
}

/// A text is what stands before a split, the character, and what stands behind.
pub proof fn lemma_split_first_whole(text: Seq<char>, c: char)
    ensures
        split_first(text, c) matches Some((front, back)) ==> text == front + seq![c] + back,
{
    if text.contains(c) {
        lemma_first_exists(text, c);
        let i = choose|i: int| is_first(text, c, i);
        assert(is_first(text, c, i));
        assert(text =~= text.take(i) + seq![c] + text.skip(i + 1));
    }
}

proof fn lemma_first_exists(text: Seq<char>, c: char)
    requires
        text.contains(c),
    ensures
        exists|i: int| is_first(text, c, i),
    decreases text.len(),
{
    let k = choose|k: int| 0 <= k < text.len() && text[k] == c;
    if text.take(k).contains(c) {
        lemma_first_exists(text.take(k), c);
        let i = choose|i: int| is_first(text.take(k), c, i);
        assert forall|j: int| 0 <= j < i implies text[j] != c by {
            assert(text.take(k)[j] != c);
        }
        assert(is_first(text, c, i));
    } else {
        assert forall|j: int| 0 <= j < k implies text[j] != c by {
            assert(text.take(k)[j] == text[j]);
        }
        assert(is_first(text, c, k));
    }
}

/// Where `c` first stands in a text.
pub fn find_first(text: &Vec<char>, c: char) -> (r: Option<usize>)
    ensures
        match r {
            Some(i) => is_first(text@, c, i as int),
            None => !text@.contains(c),
        },
{
    let mut i: usize = 0;
    while i < text.len()
        invariant
            i <= text@.len(),
            forall|j: int| 0 <= j < i ==> text@[j] != c,
        decreases text@.len() - i,
    {
        if text[i] == c {
            return Some(i);
        }
        i += 1;
    }
    None
}

/// Where `c` last stands in a text.
pub fn find_last(text: &Vec<char>, c: char) -> (r: Option<usize>)
    ensures
        match r {
            Some(i) => is_last(text@, c, i as int),
            None => !text@.contains(c),
        },
{
    let mut i: usize = text.len();
    while i > 0
        invariant
            i <= text@.len(),
            forall|j: int| i <= j < text@.len() ==> text@[j] != c,
        decreases i,
    {
        i -= 1;
        if text[i] == c {
            return Some(i);
        }
    }
    None
}

/// Texts one after the other, with a separator between each two.
pub open spec fn joined(parts: Seq<Seq<char>>, separator: Seq<char>) -> Seq<char>
    decreases parts.len(),
{
    if parts.len() == 0 {
        Seq::empty()
    } else if parts.len() == 1 {
        parts[0]
    } else {
        joined(parts.drop_last(), separator) + separator + parts.last()
    }
}

/// The texts in a list of strings.
pub open spec fn texts(parts: Seq<String>) -> Seq<Seq<char>> {
    parts.map_values(|part: String| part@)
}

/// Calls `itertools::Itertools::join`, which writes the items of an iterator one
/// after the other, with the separator between each two.
#[verifier::external_body]
pub(crate) fn join(parts: &Vec<String>, separator: &str) -> (r: String)
    ensures
        r@ == joined(texts(parts@), separator@),
{
    parts.iter().join(separator)
}

/// The digit for a number below sixteen.
pub open spec fn digit_char(digit: nat) -> char {
    if digit == 0 {
        '0'
    } else if digit == 1 {
        '1'
    } else if digit == 2 {
        '2'
    } else if digit == 3 {
        '3'
    } else if digit == 4 {
        '4'
    } else if digit == 5 {
        '5'
    } else if digit == 6 {
        '6'
    } else if digit == 7 {
        '7'
    } else if digit == 8 {
        '8'
    } else if digit == 9 {
        '9'
    } else if digit == 10 {
        'a'
    } else if digit == 11 {
        'b'
    } else if digit == 12 {
        'c'
    } else if digit == 13 {
        'd'
    } else if digit == 14 {
        'e'
    } else {
        'f'
    }
}

/// A number in a base, written without leading zeros.
pub open spec fn number_text(number: nat, base: nat) -> Seq<char>
    decreases number,
{
    if base < 2 || number < base {
        seq![digit_char(number)]
    } else {
        proof {
            assert(number / base < number) by (nonlinear_arith)
                requires
                    base >= 2,
                    number >= base,
            ;
        }
        number_text(number / base, base).push(digit_char(number % base))
    }
}

proof fn lemma_quotient_smaller(number: nat, base: nat)
    by (nonlinear_arith)
    requires
        base >= 2,
        number >= base,
    ensures
        number / base < number,
{
}

/// The digit for a number below sixteen.
fn digit_text(digit: u64) -> (r: &'static str)
    requires
        digit < 16,
    ensures
        r@ == seq![digit_char(digit as nat)],
{
    proof {
        reveal_strlit("0");
        reveal_strlit("1");
        reveal_strlit("2");
        reveal_strlit("3");
        reveal_strlit("4");
        reveal_strlit("5");
        reveal_strlit("6");
        reveal_strlit("7");
        reveal_strlit("8");
        reveal_strlit("9");
        reveal_strlit("a");
        reveal_strlit("b");
        reveal_strlit("c");
        reveal_strlit("d");
        reveal_strlit("e");
        reveal_strlit("f");
    }
    let r = match digit {
        0 => "0",
        1 => "1",
        2 => "2",
        3 => "3",
        4 => "4",
        5 => "5",
        6 => "6",
        7 => "7",
        8 => "8",
        9 => "9",
        10 => "a",
        11 => "b",
        12 => "c",
        13 => "d",
        14 => "e",
        _ => "f",
    };
    assert(r@ =~= seq![digit_char(digit as nat)]);
    r
}

/// Writes a number in a base, without leading zeros.
pub fn write_number(number: u64, base: u64) -> (r: String)
    requires
        2 <= base <= 16,
    ensures
        r@ == number_text(number as nat, base as nat),
    decreases number,
{
    if number < base {
        digit_text(number).to_owned()
    } else {
        proof {
            lemma_quotient_smaller(number as nat, base as nat);
        }
        let mut r = write_number(number / base, base);
        let ghost front = r@;
        r.append(digit_text(number % base));
        assert(r@ =~= front.push(digit_char((number % base) as nat)));
        r
    }
}

/// The number below sixteen that a digit stands for.
pub open spec fn digit_value(c: char) -> nat {
    if '0' <= c && c <= '9' {
        (c as int - '0' as int) as nat
    } else {
        (c as int - 'a' as int + 10) as nat
    }
}

/// The number that a text stands for in a base.
pub open spec fn number_value(text: Seq<char>, base: nat) -> nat
    decreases text.len(),
{
    if text.len() == 0 {
        0
    } else {
        number_value(text.drop_last(), base) * base + digit_value(text.last())
    }
}

/// A number that is written in a base can be read back.
pub proof fn lemma_number_reads_back(number: nat, base: nat)
    requires
        2 <= base <= 16,
    ensures
        number_value(number_text(number, base), base) == number,
    decreases number,
{
    let text = number_text(number, base);
    if number < base {
        assert(text.drop_last() =~= Seq::empty());
        assert(number_value(text.drop_last(), base) == 0);
        assert(0 * base == 0) by (nonlinear_arith);
        assert(digit_value(text.last()) == number);
    } else {
        lemma_quotient_smaller(number, base);
        lemma_number_reads_back(number / base, base);
        assert(text.drop_last() =~= number_text(number / base, base));
        assert(number % base < base) by (nonlinear_arith)
            requires
                base >= 2,
        ;
        assert(digit_value(digit_char(number % base)) == number % base);
        assert((number / base) * base + number % base == number) by (nonlinear_arith)
            requires
                base >= 2,
        ;
    }
}

} // verus!
