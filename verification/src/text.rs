//! Numbers in decimal digits, and text taken apart at separators.

use vstd::prelude::*;
use vstd::string::*;

verus! {

/// The character of a digit.
pub open spec fn digit(d: int) -> char {
    (48 + d) as char
}

/// Whether a character is one of the ten digits.
pub open spec fn is_digit(c: char) -> bool {
    '0' <= c <= '9'
}

/// The decimal digits of a number, without leading zeros.
pub open spec fn decimal(n: nat) -> Seq<char>
    decreases n,
{
    if n < 10 {
        seq![digit(n as int)]
    } else {
        decimal(n / 10).push(digit((n % 10) as int))
    }
}

/// Whether all characters are digits.
pub open spec fn all_digits(s: Seq<char>) -> bool {
    forall|i: int| 0 <= i < s.len() ==> is_digit(#[trigger] s[i])
}

/// The number that decimal digits stand for.
pub open spec fn digits_value(s: Seq<char>) -> nat
    decreases s.len(),
{
    if s.len() == 0 {
        0
    } else {
        digits_value(s.drop_last()) * 10 + (s.last() as int - 48) as nat
    }
}

/// The digits of a number, which one plus sign may precede.
pub open spec fn unsigned_part(s: Seq<char>) -> Seq<char> {
    if s.len() > 0 && s[0] == '+' {
        s.drop_first()
    } else {
        s
    }
}

/// The number that a text gives: digits and nothing else after an optional plus sign, and a value
/// of at most `max`.
pub open spec fn parsed(s: Seq<char>, max: nat) -> Option<nat> {
    let digits = unsigned_part(s);
    if digits.len() > 0 && all_digits(digits) && digits_value(digits) <= max {
        Some(digits_value(digits))
    } else {
        None
    }
}

/// The digits of a number give the number back.
pub proof fn law_decimal_parses(n: nat, max: nat)
    requires
        n <= max,
    ensures
        parsed(decimal(n), max) == Some(n),
{
    lemma_decimal(n);
    assert(is_digit(decimal(n)[0]));
}

/// What the digits of a number are: at least one of them, digits only, and of that value.
pub proof fn lemma_decimal(n: nat)
    ensures
        decimal(n).len() > 0,
        all_digits(decimal(n)),
        digits_value(decimal(n)) == n,
    decreases n,
{
    if n < 10 {
        assert(decimal(n).drop_last() =~= seq![]);
        assert(digits_value(decimal(n).drop_last()) == 0);
    } else {
        lemma_decimal(n / 10);
        assert(decimal(n).drop_last() =~= decimal(n / 10));
    }
}

/// Reads a number of at most `max`.
pub fn parse_number(s: &[char], max: u64) -> (n: Option<u64>)
    ensures
        n == (match parsed(s@, max as nat) {
            Some(v) => Some(v as u64),
            None => None::<u64>,
        }),
        n matches Some(v) ==> v <= max,
{
    let start: usize = if s.len() > 0 && s[0] == '+' {
        1
    } else {
        0
    };
    let ghost digits = unsigned_part(s@);
    proof {
        if start == 1 {
            assert(digits =~= s@.subrange(1, s@.len() as int));
        }
    }
    if start == s.len() {
        return None;
    }
    let mut value: u64 = 0;
    let mut over: bool = false;
    let mut i: usize = start;
    assert(digits.take(0) =~= seq![]);
    while i < s.len()
        invariant
            start <= i <= s.len(),
            start == 0 || start == 1,
            digits.len() == s@.len() - start,
            digits.len() > 0,
            digits == unsigned_part(s@),
            forall|j: int| 0 <= j < digits.len() ==> #[trigger] digits[j] == s@[start + j],
            all_digits(digits.take(i - start)),
            !over ==> value == digits_value(digits.take(i - start)) && value <= max,
            over ==> digits_value(digits.take(i - start)) > max,
        decreases s.len() - i,
    {
        let c: char = s[i];
        assert(digits[i - start] == c);
        if c < '0' || c > '9' {
            assert(!is_digit(digits[i - start]));
            return None;
        }
        let d: u64 = (c as u32 - 48) as u64;
        let ghost more = digits.take(i - start + 1);
        proof {
            assert(more.drop_last() =~= digits.take(i - start));
            assert(more.last() == c);
        }
        if !over {
            if value > max / 10 || d > max || value * 10 > max - d {
                over = true;
            } else {
                value = value * 10 + d;
            }
        }
        i += 1;
    }
    assert(digits.take(digits.len() as int) =~= digits);
    if over {
        None
    } else {
        Some(value)
    }
}

/// The characters of a text.
pub fn chars_of(s: &str) -> (chars: Vec<char>)
    ensures
        chars@ == s@,
{
    let mut chars: Vec<char> = Vec::new();
    for c in it: s.chars()
        invariant
            chars@ == s@.take(it.index()),
            it.seq() == s@,
    {
        chars.push(c);
        assert(chars@ =~= s@.take(it.index() + 1));
    }
    assert(s@.take(s@.len() as int) =~= s@);
    chars
}

/// Appends one digit.
fn push_digit(out: &mut String, d: u64)
    requires
        d < 10,
    ensures
        final(out)@ == old(out)@.push(digit(d as int)),
{
    proof {
        reveal_strlit("0");
        reveal_strlit("1");
        reveal_strlit("2");
        reveal_strlit("3");
        reveal_strlit("4");
        reveal_strlit("5");
        reveal_strlit("6");
        reveal_strlit("7");
        reveal_strlit("8");
        reveal_strlit("9");
    }
    let ghost before = out@;
    let name: &str = match d {
        0 => "0",
        1 => "1",
        2 => "2",
        3 => "3",
        4 => "4",
        5 => "5",
        6 => "6",
        7 => "7",
        8 => "8",
        _ => "9",
    };
    assert(name@ =~= seq![digit(d as int)]);
    out.append(name);
    assert(out@ =~= before.push(digit(d as int)));
}

/// Appends the decimal digits of a number.
pub fn push_number(out: &mut String, n: u64)
    ensures
        final(out)@ == old(out)@ + decimal(n as nat),
    decreases n,
{
    let ghost before = out@;
    if n >= 10 {
        push_number(out, n / 10);
    }
    push_digit(out, n % 10);
    assert(out@ =~= before + decimal(n as nat));
}

/// The decimal digits of a number.
pub fn number_text(n: u64) -> (text: String)
    ensures
        text@ == decimal(n as nat),
{
    let mut text: String = String::new();
    push_number(&mut text, n);
    assert(text@ =~= decimal(n as nat));
    text
}

/// The pieces of a text between the characters that `cut` names, empty ones counted.
pub open spec fn split_by(s: Seq<char>, cut: spec_fn(char) -> bool) -> Seq<Seq<char>>
    decreases s.len(),
{
    if s.len() == 0 {
        seq![seq![]]
    } else {
        let head = split_by(s.drop_last(), cut);
        if cut(s.last()) {
            head.push(seq![])
        } else {
            head.drop_last().push(head.last().push(s.last()))
        }
    }
}

/// The test for one character.
pub open spec fn at(sep: char) -> spec_fn(char) -> bool {
    |c: char| c == sep
}

/// The pieces of a text between separators, empty ones counted.
pub open spec fn pieces(s: Seq<char>, sep: char) -> Seq<Seq<char>> {
    split_by(s, at(sep))
}

/// The lines of a text: what stands between line feeds, where nothing stands after the last.
pub open spec fn lines(s: Seq<char>) -> Seq<Seq<char>> {
    let all = pieces(s, '\n');
    if all.last().len() == 0 {
        all.drop_last()
    } else {
        all
    }
}

/// The characters with the property White_Space.
pub open spec fn is_space(c: char) -> bool {
    let v = c as int;
    ||| 0x9 <= v <= 0xd
    ||| v == 0x20
    ||| v == 0x85
    ||| v == 0xa0
    ||| v == 0x1680
    ||| 0x2000 <= v <= 0x200a
    ||| v == 0x2028
    ||| v == 0x2029
    ||| v == 0x202f
    ||| v == 0x205f
    ||| v == 0x3000
}

/// The words of a text: what stands between white space.
pub open spec fn words(s: Seq<char>) -> Seq<Seq<char>> {
    split_by(s, |c: char| is_space(c)).filter(|w: Seq<char>| w.len() > 0)
}

/// The contents of a list of character lists.
pub open spec fn contents(v: Seq<Vec<char>>) -> Seq<Seq<char>> {
    Seq::new(v.len(), |i: int| v[i]@)
}

/// There is always at least one piece.
pub proof fn lemma_split_nonempty(s: Seq<char>, cut: spec_fn(char) -> bool)
    ensures
        split_by(s, cut).len() > 0,
    decreases s.len(),
{
    if s.len() > 0 {
        lemma_split_nonempty(s.drop_last(), cut);
    }
}

/// Characters that are not cut at extend the last piece.
pub proof fn lemma_split_extend(a: Seq<char>, b: Seq<char>, cut: spec_fn(char) -> bool)
    requires
        forall|i: int| 0 <= i < b.len() ==> !cut(#[trigger] b[i]),
    ensures
        split_by(a + b, cut) == split_by(a, cut).drop_last().push(split_by(a, cut).last() + b),
    decreases b.len(),
{
    let pa = split_by(a, cut);
    lemma_split_nonempty(a, cut);
    if b.len() == 0 {
        assert(a + b =~= a);
        assert(pa.last() + b =~= pa.last());
        assert(pa.drop_last().push(pa.last()) =~= pa);
    } else {
        lemma_split_extend(a, b.drop_last(), cut);
        assert((a + b).drop_last() =~= a + b.drop_last());
        assert(!cut(b.last()));
        let head = split_by(a + b.drop_last(), cut);
        assert(head.drop_last() =~= pa.drop_last());
        assert(head.last() == pa.last() + b.drop_last());
        assert((pa.last() + b.drop_last()).push(b.last()) =~= pa.last() + b);
    }
}

/// A character that is cut at ends the last piece.
pub proof fn lemma_split_cut(a: Seq<char>, c: char, cut: spec_fn(char) -> bool)
    requires
        cut(c),
    ensures
        split_by(a.push(c), cut) == split_by(a, cut).push(seq![]),
{
    assert(a.push(c).drop_last() =~= a);
}

/// The text of some pieces, each ended by the separator.
pub open spec fn joined(parts: Seq<Seq<char>>, sep: char) -> Seq<char>
    decreases parts.len(),
{
    if parts.len() == 0 {
        seq![]
    } else {
        joined(parts.drop_last(), sep) + parts.last().push(sep)
    }
}

/// Lines that are written one after the other are read back as they were.
pub proof fn law_lines_read_back(parts: Seq<Seq<char>>)
    requires
        forall|i: int, j: int|
            0 <= i < parts.len() && 0 <= j < parts[i].len() ==> #[trigger] parts[i][j] != '\n',
    ensures
        lines(joined(parts, '\n')) == parts,
{
    lemma_joined_pieces(parts, '\n');
    let all = pieces(joined(parts, '\n'), '\n');
    assert(all.last() =~= seq![]);
    assert(all.drop_last() =~= parts);
}

proof fn lemma_joined_pieces(parts: Seq<Seq<char>>, sep: char)
    requires
        forall|i: int, j: int|
            0 <= i < parts.len() && 0 <= j < parts[i].len() ==> #[trigger] parts[i][j] != sep,
    ensures
        pieces(joined(parts, sep), sep) == parts.push(seq![]),
    decreases parts.len(),
{
    let cut = at(sep);
    if parts.len() == 0 {
        assert(parts.push(seq![]) =~= seq![seq![]]);
    } else {
        let head = parts.drop_last();
        assert forall|i: int, j: int|
            0 <= i < head.len() && 0 <= j < head[i].len() implies #[trigger] head[i][j] != sep by {
            assert(parts[i][j] != sep);
        }
        lemma_joined_pieces(head, sep);
        let text = joined(head, sep);
        let last = parts.last();
        assert forall|i: int| 0 <= i < last.len() implies !cut(#[trigger] last[i]) by {
            assert(parts[parts.len() - 1][i] != sep);
        }
        lemma_split_extend(text, last, cut);
        lemma_split_cut(text + last, sep, cut);
        assert(joined(parts, sep) =~= (text + last).push(sep));
        let pa = split_by(text, cut);
        assert(pa.last() + last =~= last);
        assert(pa.drop_last() =~= head);
        assert(head.push(last) =~= parts);
    }
}

/// The text of some parts with one separator between them.
pub open spec fn separated(parts: Seq<Seq<char>>, sep: char) -> Seq<char>
    decreases parts.len(),
{
    if parts.len() == 0 {
        seq![]
    } else if parts.len() == 1 {
        parts[0]
    } else {
        separated(parts.drop_last(), sep).push(sep) + parts.last()
    }
}

/// Parts that are written with a separator between them are read back as they were.
pub proof fn law_pieces_read_back(parts: Seq<Seq<char>>, sep: char)
    requires
        parts.len() > 0,
        forall|i: int, j: int|
            0 <= i < parts.len() && 0 <= j < parts[i].len() ==> #[trigger] parts[i][j] != sep,
    ensures
        pieces(separated(parts, sep), sep) == parts,
{
    lemma_separated_split(parts, sep, at(sep));
}

/// Words that are written with blanks between them are read back as they were.
pub proof fn law_words_read_back(parts: Seq<Seq<char>>)
    requires
        parts.len() > 0,
        forall|i: int| 0 <= i < parts.len() ==> (#[trigger] parts[i]).len() > 0,
        forall|i: int, j: int|
            0 <= i < parts.len() && 0 <= j < parts[i].len() ==> !is_space(#[trigger] parts[i][j]),
    ensures
        words(separated(parts, ' ')) == parts,
{
    lemma_separated_split(parts, ' ', |c: char| is_space(c));
    lemma_filter_all(parts, |w: Seq<char>| w.len() > 0);
}

proof fn lemma_filter_all(parts: Seq<Seq<char>>, keep: spec_fn(Seq<char>) -> bool)
    requires
        forall|i: int| 0 <= i < parts.len() ==> keep(#[trigger] parts[i]),
    ensures
        parts.filter(keep) == parts,
    decreases parts.len(),
{
    reveal(Seq::filter);
    if parts.len() > 0 {
        lemma_filter_all(parts.drop_last(), keep);
        assert(keep(parts.last()));
        assert(parts.drop_last().push(parts.last()) =~= parts);
    }
}

proof fn lemma_separated_split(parts: Seq<Seq<char>>, sep: char, cut: spec_fn(char) -> bool)
    requires
        parts.len() > 0,
        cut(sep),
        forall|i: int, j: int|
            0 <= i < parts.len() && 0 <= j < parts[i].len() ==> !cut(#[trigger] parts[i][j]),
    ensures
        split_by(separated(parts, sep), cut) == parts,
    decreases parts.len(),
{
    let last = parts.last();
    assert forall|i: int| 0 <= i < last.len() implies !cut(#[trigger] last[i]) by {
        assert(!cut(parts[parts.len() - 1][i]));
    }
    if parts.len() == 1 {
        lemma_split_extend(seq![], last, cut);
        assert(seq![] + last =~= last);
        assert(split_by(seq![], cut) =~= seq![seq![]]);
        assert(seq![seq![]].drop_last().push(seq![] + last) =~= parts);
    } else {
        let head = parts.drop_last();
        assert forall|i: int, j: int|
            0 <= i < head.len() && 0 <= j < head[i].len() implies !cut(#[trigger] head[i][j]) by {
            assert(!cut(parts[i][j]));
        }
        lemma_separated_split(head, sep, cut);
        let text = separated(head, sep);
        lemma_split_cut(text, sep, cut);
        lemma_split_extend(text.push(sep), last, cut);
        let pa = split_by(text.push(sep), cut);
        assert(pa.last() + last =~= last);
        assert(pa.drop_last() =~= head);
        assert(head.push(last) =~= parts);
    }
}

/// The decimal digits of some numbers.
pub open spec fn decimals(numbers: Seq<nat>) -> Seq<Seq<char>> {
    Seq::new(numbers.len(), |i: int| decimal(numbers[i]))
}

/// Numbers that are written with a character between them that is no digit are read back piece by
/// piece.
pub proof fn lemma_decimals_pieces(numbers: Seq<nat>, sep: char)
    requires
        numbers.len() > 0,
        !is_digit(sep),
    ensures
        pieces(separated(decimals(numbers), sep), sep) == decimals(numbers),
{
    let parts = decimals(numbers);
    assert forall|i: int, j: int|
        0 <= i < parts.len() && 0 <= j < parts[i].len() implies #[trigger] parts[i][j] != sep by {
        lemma_decimal(numbers[i]);
        assert(is_digit(decimal(numbers[i])[j]));
    }
    law_pieces_read_back(parts, sep);
}

/// Numbers that are written with blanks between them are read back word by word.
pub proof fn lemma_decimals_words(numbers: Seq<nat>)
    requires
        numbers.len() > 0,
    ensures
        words(separated(decimals(numbers), ' ')) == decimals(numbers),
        forall|i: int|
            0 <= i < separated(decimals(numbers), ' ').len() ==> #[trigger] separated(
                decimals(numbers),
                ' ',
            )[i] != '\n',
{
    let parts = decimals(numbers);
    assert forall|i: int, j: int|
        0 <= i < parts.len() && 0 <= j < parts[i].len() implies !is_space(
        #[trigger] parts[i][j],
    ) by {
        lemma_decimal(numbers[i]);
        assert(is_digit(decimal(numbers[i])[j]));
    }
    assert forall|i: int| 0 <= i < parts.len() implies (#[trigger] parts[i]).len() > 0 by {
        lemma_decimal(numbers[i]);
    }
    law_words_read_back(parts);
    lemma_separated_one_line(parts);
}

proof fn lemma_separated_one_line(parts: Seq<Seq<char>>)
    requires
        forall|i: int, j: int|
            0 <= i < parts.len() && 0 <= j < parts[i].len() ==> !is_space(#[trigger] parts[i][j]),
    ensures
        forall|i: int|
            0 <= i < separated(parts, ' ').len() ==> #[trigger] separated(parts, ' ')[i] != '\n',
    decreases parts.len(),
{
    if parts.len() == 1 {
        assert forall|i: int| 0 <= i < parts[0].len() implies parts[0][i] != '\n' by {
            assert(!is_space(parts[0][i]));
        }
    } else if parts.len() > 1 {
        let head = parts.drop_last();
        assert forall|i: int, j: int|
            0 <= i < head.len() && 0 <= j < head[i].len() implies !is_space(
            #[trigger] head[i][j],
        ) by {
            assert(!is_space(parts[i][j]));
        }
        lemma_separated_one_line(head);
        let n = parts.len() - 1;
        let front = separated(head, ' ').push(' ');
        assert forall|i: int| 0 <= i < separated(parts, ' ').len() implies #[trigger] separated(
            parts,
            ' ',
        )[i] != '\n' by {
            if i >= front.len() {
                assert(!is_space(parts[n][i - front.len()]));
            }
        }
    }
}

/// The pieces of a text between separators, empty ones counted.
pub fn split_pieces(s: &[char], sep: char) -> (parts: Vec<Vec<char>>)
    ensures
        contents(parts@) == pieces(s@, sep),
{
    let ghost cut = at(sep);
    let mut parts: Vec<Vec<char>> = Vec::new();
    let mut part: Vec<char> = Vec::new();
    let mut i: usize = 0;
    assert(s@.take(0) =~= seq![]);
    assert(contents(parts@).push(part@) =~= split_by(s@.take(0), cut));
    while i < s.len()
        invariant
            i <= s.len(),
            cut == at(sep),
            contents(parts@).push(part@) == split_by(s@.take(i as int), cut),
        decreases s.len() - i,
    {
        let c: char = s[i];
        let ghost head = split_by(s@.take(i as int), cut);
        proof {
            assert(s@.take(i + 1).drop_last() =~= s@.take(i as int));
            assert(head.last() == part@);
            assert(head.drop_last() =~= contents(parts@));
        }
        if c == sep {
            parts.push(part);
            assert(contents(parts@) =~= head);
            part = Vec::new();
        } else {
            part.push(c);
        }
        assert(contents(parts@).push(part@) =~= split_by(s@.take(i + 1), cut));
        i += 1;
    }
    assert(s@.take(s@.len() as int) =~= s@);
    let ghost parts0 = parts@;
    let ghost last = part@;
    parts.push(part);
    assert(contents(parts@) =~= contents(parts0).push(last));
    parts
}

/// The lines of a text.
pub fn split_lines(s: &[char]) -> (parts: Vec<Vec<char>>)
    ensures
        contents(parts@) == lines(s@),
{
    let mut parts = split_pieces(s, '\n');
    proof {
        lemma_split_nonempty(s@, at('\n'));
    }
    let n: usize = parts.len();
    assert(contents(parts@).len() == n);
    assert(contents(parts@).last() == parts@[n - 1]@);
    if parts[n - 1].len() == 0 {
        let ghost all = contents(parts@);
        parts.truncate(n - 1);
        assert(contents(parts@) =~= all.drop_last());
    }
    parts
}

/// Whether a character is white space.
pub fn is_white_space(c: char) -> (r: bool)
    ensures
        r == is_space(c),
{
    let v: u32 = c as u32;
    (v >= 0x9 && v <= 0xd) || v == 0x20 || v == 0x85 || v == 0xa0 || v == 0x1680 || (v >= 0x2000
        && v <= 0x200a) || v == 0x2028 || v == 0x2029 || v == 0x202f || v == 0x205f || v == 0x3000
}

/// The words of a text.
pub fn split_words(s: &[char]) -> (parts: Vec<Vec<char>>)
    ensures
        contents(parts@) == words(s@),
{
    let ghost cut = |c: char| is_space(c);
    let ghost keep = |w: Seq<char>| w.len() > 0;
    let mut parts: Vec<Vec<char>> = Vec::new();
    let mut part: Vec<char> = Vec::new();
    let mut i: usize = 0;
    proof {
        assert(s@.take(0) =~= seq![]);
        assert(split_by(s@.take(0), cut).drop_last() =~= seq![]);
        reveal(Seq::filter);
        assert(contents(parts@) =~= seq![]);
    }
    while i < s.len()
        invariant
            i <= s.len(),
            cut == (|c: char| is_space(c)),
            keep == (|w: Seq<char>| w.len() > 0),
            split_by(s@.take(i as int), cut).len() > 0,
            contents(parts@) == split_by(s@.take(i as int), cut).drop_last().filter(keep),
            part@ == split_by(s@.take(i as int), cut).last(),
        decreases s.len() - i,
    {
        let c: char = s[i];
        let ghost head = split_by(s@.take(i as int), cut);
        let ghost more = split_by(s@.take(i + 1), cut);
        proof {
            assert(s@.take(i + 1).drop_last() =~= s@.take(i as int));
        }
        if is_white_space(c) {
            proof {
                assert(more == head.push(seq![]));
                assert(more.drop_last() =~= head);
                reveal(Seq::filter);
            }
            if part.len() > 0 {
                let ghost parts0 = parts@;
                let ghost part0 = part@;
                parts.push(part);
                assert(contents(parts@) =~= contents(parts0).push(part0));
            }
            part = Vec::new();
        } else {
            proof {
                assert(more.drop_last() =~= head.drop_last());
            }
            part.push(c);
        }
        i += 1;
    }
    assert(s@.take(s@.len() as int) =~= s@);
    proof {
        reveal(Seq::filter);
    }
    if part.len() > 0 {
        let ghost parts0 = parts@;
        let ghost part0 = part@;
        parts.push(part);
        assert(contents(parts@) =~= contents(parts0).push(part0));
    }
    parts
}

/// The text of a number is its digits: that of the tenth part, and one more digit for the rest.
pub proof fn law_digits_by_place(n: u64, text: String, tenth: String)
    requires
        call_ensures(number_text, (n,), text),
        call_ensures(number_text, ((n / 10) as u64,), tenth),
    ensures
        n < 10 ==> text@.len() == 1,
        n >= 10 ==> text@.drop_last() == tenth@,
        text@.len() >= 1,
        text@.last() as int == 48 + n % 10,
{
    if n >= 10 {
        assert(text@.drop_last() =~= decimal((n / 10) as nat));
    }
}

/// A number is appended as its text.
pub proof fn law_number_is_appended(out: &mut String, n: u64, text: String)
    requires
        call_ensures(push_number, (out, n), ()),
        call_ensures(number_text, (n,), text),
    ensures
        final(out)@ == old(out)@ + text@,
{
}

/// The characters of a text are taken as they stand.
pub proof fn law_characters_as_they_stand(s: &str, chars: Vec<char>)
    requires
        call_ensures(chars_of, (s,), chars),
    ensures
        chars@ == s@,
{
}

/// A number is read digit by digit: one more digit makes ten times as much and that digit, as long
/// as the limit allows; anything that is no digit spoils it, but for one plus sign before the first
/// digit. Nothing is no number.
pub proof fn law_number_is_read_by_place(
    s: &[char],
    longer: &[char],
    c: char,
    max: u64,
    n: Option<u64>,
    m: Option<u64>,
)
    requires
        call_ensures(parse_number, (s, max), n),
        call_ensures(parse_number, (longer, max), m),
        longer@ == s@.push(c),
    ensures
        s@.len() == 0 ==> n is None,
        s@.len() == 1 && s@[0] == '+' ==> n is None,
        n matches Some(v) ==> v <= max,
        !('0' <= c <= '9') ==> m is None,
        '0' <= c <= '9' && (s@.len() == 0 || (s@.len() == 1 && s@[0] == '+')) ==> m == (if c as int
            - 48 <= max {
            Some((c as int - 48) as u64)
        } else {
            None
        }),
        '0' <= c <= '9' ==> (n matches Some(v) ==> m == (if 10 * v + (c as int - 48) <= max {
            Some((10 * v + (c as int - 48)) as u64)
        } else {
            None
        })),
        n is None && s@.len() > 0 && !(s@.len() == 1 && s@[0] == '+') ==> m is None,
{
    let a = unsigned_part(s@);
    let b = unsigned_part(longer@);
    if s@.len() > 0 {
        assert(b =~= a.push(c));
    } else if c == '+' {
        assert(b =~= seq![]);
    } else {
        assert(b =~= seq![c]);
    }
    if b.len() > 0 {
        assert(b.last() == c);
        assert(b.drop_last() =~= if s@.len() > 0 {
            a
        } else {
            seq![]
        });
        assert(all_digits(b) <==> all_digits(b.drop_last()) && is_digit(c)) by {
            if all_digits(b) {
                assert(is_digit(b[b.len() - 1]));
                assert forall|i: int| 0 <= i < b.drop_last().len() implies is_digit(
                    #[trigger] b.drop_last()[i],
                ) by {
                    assert(is_digit(b[i]));
                }
            }
            if all_digits(b.drop_last()) && is_digit(c) {
                assert forall|i: int| 0 <= i < b.len() implies is_digit(#[trigger] b[i]) by {
                    if i < b.len() - 1 {
                        assert(is_digit(b.drop_last()[i]));
                    }
                }
            }
        }
        assert(digits_value(Seq::<char>::empty()) == 0);
    }
}

/// A text that is written as a number is read as that number, if the limit allows.
pub proof fn law_number_is_read_back(n: u64, text: String, s: &[char], max: u64, read: Option<u64>)
    requires
        call_ensures(number_text, (n,), text),
        call_ensures(parse_number, (s, max), read),
        s@ == text@,
    ensures
        n <= max ==> read == Some(n),
        n > max ==> read is None,
{
    lemma_decimal(n as nat);
    law_decimal_parses(n as nat, n as nat);
    assert(is_digit(decimal(n as nat)[0]));
}

/// A text that is cut once falls apart into the pieces of both sides.
proof fn lemma_split_join(a: Seq<char>, c: char, b: Seq<char>, cut: spec_fn(char) -> bool)
    requires
        cut(c),
    ensures
        split_by(a.push(c) + b, cut) == split_by(a, cut) + split_by(b, cut),
    decreases b.len(),
{
    let pa = split_by(a, cut);
    lemma_split_cut(a, c, cut);
    if b.len() == 0 {
        assert(a.push(c) + b =~= a.push(c));
        assert(pa.push(seq![]) =~= pa + seq![seq![]]);
        assert(split_by(b, cut) =~= seq![seq![]]);
    } else {
        let less = b.drop_last();
        lemma_split_join(a, c, less, cut);
        lemma_split_nonempty(less, cut);
        assert((a.push(c) + b).drop_last() =~= a.push(c) + less);
        assert((a.push(c) + b).last() == b.last());
        let pb = split_by(less, cut);
        if cut(b.last()) {
            assert((pa + pb).push(seq![]) =~= pa + pb.push(seq![]));
        } else {
            assert((pa + pb).drop_last() =~= pa + pb.drop_last());
            assert((pa + pb).last() == pb.last());
            assert((pa + pb).drop_last().push(pb.last().push(b.last())) =~= pa
                + pb.drop_last().push(pb.last().push(b.last())));
        }
    }
}

/// A text that is not cut is one piece.
proof fn lemma_split_whole(s: Seq<char>, cut: spec_fn(char) -> bool)
    requires
        forall|i: int| 0 <= i < s.len() ==> !cut(#[trigger] s[i]),
    ensures
        split_by(s, cut) == seq![s],
{
    lemma_split_extend(seq![], s, cut);
    assert(seq![] + s =~= s);
    assert(split_by(seq![], cut) =~= seq![seq![]]);
    assert(seq![seq![]].drop_last().push(seq![] + s) =~= seq![s]);
}

/// Lists of characters are what they hold.
pub proof fn law_contents_one_by_one(v: Seq<Vec<char>>, i: int)
    requires
        0 <= i < v.len(),
    ensures
        contents(v).len() == v.len(),
        contents(v)[i] == v[i]@,
{
}

/// A text without the separator is one piece; one with a separator falls apart there, into the
/// pieces before it and those after it.
pub proof fn law_pieces_fall_apart(
    a: &[char],
    b: &[char],
    whole: &[char],
    sep: char,
    before: Vec<Vec<char>>,
    after: Vec<Vec<char>>,
    all: Vec<Vec<char>>,
)
    requires
        call_ensures(split_pieces, (a, sep), before),
        call_ensures(split_pieces, (b, sep), after),
        call_ensures(split_pieces, (whole, sep), all),
        whole@ == a@.push(sep) + b@,
    ensures
        contents(all@) == contents(before@) + contents(after@),
        !a@.contains(sep) ==> contents(before@) == seq![a@],
{
    lemma_split_join(a@, sep, b@, at(sep));
    if !a@.contains(sep) {
        assert forall|i: int| 0 <= i < a@.len() implies !at(sep)(#[trigger] a@[i]) by {
            assert(a@.contains(a@[i]));
        }
        lemma_split_whole(a@, at(sep));
    }
}

/// What stands before the first line feed is the first line, and the others are the lines of the
/// rest. Without a line feed there is one line, or none where there is nothing.
pub proof fn law_lines_one_by_one(
    a: &[char],
    b: &[char],
    whole: &[char],
    alone: Vec<Vec<char>>,
    rest: Vec<Vec<char>>,
    all: Vec<Vec<char>>,
)
    requires
        call_ensures(split_lines, (a,), alone),
        call_ensures(split_lines, (b,), rest),
        call_ensures(split_lines, (whole,), all),
        whole@ == a@.push('\n') + b@,
        !a@.contains('\n'),
    ensures
        contents(all@) == seq![a@] + contents(rest@),
        a@.len() > 0 ==> contents(alone@) == seq![a@],
        a@.len() == 0 ==> contents(alone@).len() == 0,
{
    let cut = at('\n');
    assert forall|i: int| 0 <= i < a@.len() implies !cut(#[trigger] a@[i]) by {
        assert(a@.contains(a@[i]));
    }
    lemma_split_whole(a@, cut);
    lemma_split_join(a@, '\n', b@, cut);
    lemma_split_nonempty(b@, cut);
    let pb = pieces(b@, '\n');
    let pw = pieces(whole@, '\n');
    assert(pw.last() == pb.last());
    assert((seq![a@] + pb).drop_last() =~= seq![a@] + pb.drop_last());
}

/// A filter of two lists in a row is the filter of each.
proof fn lemma_filter_add(
    a: Seq<Seq<char>>,
    b: Seq<Seq<char>>,
    keep: spec_fn(Seq<char>) -> bool,
)
    ensures
        (a + b).filter(keep) == a.filter(keep) + b.filter(keep),
    decreases b.len(),
{
    reveal(Seq::filter);
    if b.len() == 0 {
        assert(a + b =~= a);
        assert(a.filter(keep) + b.filter(keep) =~= a.filter(keep));
    } else {
        let less = b.drop_last();
        lemma_filter_add(a, less, keep);
        assert((a + b).drop_last() =~= a + less);
        assert((a + b).last() == b.last());
        if keep(b.last()) {
            assert((a.filter(keep) + less.filter(keep)).push(b.last()) =~= a.filter(keep)
                + less.filter(keep).push(b.last()));
        }
    }
}

/// White space ends a word: the words of a text are those before it and those after it. Without
/// white space there is one word, or none where there is nothing.
pub proof fn law_words_fall_apart(
    a: &[char],
    b: &[char],
    whole: &[char],
    space: char,
    before: Vec<Vec<char>>,
    after: Vec<Vec<char>>,
    all: Vec<Vec<char>>,
)
    requires
        call_ensures(split_words, (a,), before),
        call_ensures(split_words, (b,), after),
        call_ensures(split_words, (whole,), all),
        call_ensures(is_white_space, (space,), true),
        whole@ == a@.push(space) + b@,
    ensures
        contents(all@) == contents(before@) + contents(after@),
        (forall|i: int| 0 <= i < a@.len() ==> !is_space(#[trigger] a@[i])) && a@.len() > 0
            ==> contents(before@) == seq![a@],
        a@.len() == 0 ==> contents(before@).len() == 0,
{
    let cut = |c: char| is_space(c);
    let keep = |w: Seq<char>| w.len() > 0;
    lemma_split_join(a@, space, b@, cut);
    lemma_filter_add(split_by(a@, cut), split_by(b@, cut), keep);
    reveal(Seq::filter);
    if forall|i: int| 0 <= i < a@.len() ==> !is_space(#[trigger] a@[i]) {
        lemma_split_whole(a@, cut);
        assert(seq![a@].drop_last() =~= seq![]);
        assert(seq![a@].last() == a@);
        assert(Seq::<Seq<char>>::empty().filter(keep) =~= seq![]);
        if a@.len() > 0 {
            assert(seq![a@].filter(keep) =~= seq![a@]);
        } else {
            assert(seq![a@].filter(keep) =~= seq![]);
        }
    }
}

/// Blanks, tabs and the ends of lines are white space; what is written in between is not.
pub proof fn law_white_space(c: char, r: bool)
    requires
        call_ensures(is_white_space, (c,), r),
    ensures
        r == is_space(c),
        (c as int) < 128 ==> (r <==> c == ' ' || 9 <= c as int <= 13),
        c as int > 0x3000 ==> !r,
        c as int == 0xa0 || c as int == 0x3000 || c as int == 0x2028 ==> r,
{
}

/// A line that is added to whole lines is the last of them.
pub proof fn lemma_lines_grow(content: Seq<char>, line: Seq<char>)
    requires
        content.len() == 0 || content.last() == '\n',
        !line.contains('\n'),
    ensures
        lines(content + line.push('\n')) == lines(content).push(line),
{
    let cut = at('\n');
    assert forall|i: int| 0 <= i < line.len() implies !cut(#[trigger] line[i]) by {
        assert(line.contains(line[i]));
    }
    let whole = content + line;
    assert(content + line.push('\n') =~= whole.push('\n'));
    lemma_split_cut(whole, '\n', cut);
    lemma_split_nonempty(whole, cut);
    if content.len() == 0 {
        assert(whole =~= line);
        lemma_split_whole(line, cut);
        assert(split_by(content, cut) =~= seq![seq![]]);
        assert(lines(content) =~= seq![]);
    } else {
        let a = content.drop_last();
        assert(content =~= a.push('\n'));
        lemma_split_cut(a, '\n', cut);
        lemma_split_extend(content, line, cut);
        let pa = split_by(a, cut);
        assert(pa.push(seq![]).drop_last() =~= pa);
        assert(seq![] + line =~= line);
        assert(lines(content) =~= pa);
    }
    let all = split_by(whole, cut).push(seq![]);
    assert(all.drop_last() =~= split_by(whole, cut));
}

} // verus!
