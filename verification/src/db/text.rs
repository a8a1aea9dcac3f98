//! Text handling: splitting on single spaces, joining with single spaces,
//! string comparison and decimal rendering of integers.
use vstd::prelude::*;
use vstd::string::StringSliceAdditionalSpecFns;

verus! {

/// The views of a sequence of strings.
pub open spec fn strings_view(ws: Seq<String>) -> Seq<Seq<char>> {
    ws.map_values(|w: String| w@)
}

/// `s` split at every space character, as `str::split(' ')` does: `n` spaces
/// give `n + 1` pieces, some of which may be empty.
pub open spec fn split_spaces(s: Seq<char>) -> Seq<Seq<char>>
    decreases s.len(),
{
    if s.len() == 0 {
        seq![Seq::<char>::empty()]
    } else {
        let prev = split_spaces(s.drop_last());
        if s.last() == ' ' {
            prev.push(Seq::<char>::empty())
        } else {
            prev.update(prev.len() - 1, prev.last().push(s.last()))
        }
    }
}

/// The pieces joined with one space between each two of them, as
/// `[&str]::join(" ")` does.
pub open spec fn join_spaces(ws: Seq<Seq<char>>) -> Seq<char>
    decreases ws.len(),
{
    if ws.len() == 0 {
        Seq::<char>::empty()
    } else if ws.len() == 1 {
        ws[0]
    } else {
        join_spaces(ws.drop_last()) + seq![' '] + ws.last()
    }
}

/// The decimal digit `d` (for `0 <= d < 10`) as a character.
pub open spec fn digit_char(d: int) -> char {
    seq!['0', '1', '2', '3', '4', '5', '6', '7', '8', '9'][d]
}

/// The decimal digits of `n`, most significant first, without leading zeros.
pub open spec fn decimal_digits(n: nat) -> Seq<char>
    decreases n,
{
    if n < 10 {
        seq![digit_char(n as int)]
    } else {
        decimal_digits(n / 10).push(digit_char((n % 10) as int))
    }
}

/// `x` written in decimal, with a leading `-` when negative (what `to_string`
/// gives for an integer).
pub open spec fn decimal(x: int) -> Seq<char> {
    if x < 0 {
        seq!['-'] + decimal_digits((-x) as nat)
    } else {
        decimal_digits(x as nat)
    }
}

/// There is always at least one piece, and never more than one per character
/// plus one.
pub proof fn lemma_split_spaces_len(s: Seq<char>)
    ensures
        1 <= split_spaces(s).len() <= s.len() + 1,
    decreases s.len(),
{
    if s.len() > 0 {
        lemma_split_spaces_len(s.drop_last());
    }
}

proof fn lemma_join_extend_last(ws: Seq<Seq<char>>, c: char)
    requires
        ws.len() >= 1,
    ensures
        join_spaces(ws.update(ws.len() - 1, ws.last().push(c))) == join_spaces(ws).push(c),
{
    let ws2 = ws.update(ws.len() - 1, ws.last().push(c));
    if ws.len() == 1 {
        assert(ws2[0] == ws[0].push(c));
    } else {
        assert(ws2.drop_last() =~= ws.drop_last());
        assert(join_spaces(ws2) =~= join_spaces(ws).push(c));
    }
}

/// Joining the pieces of a split gives the text back.
pub proof fn law_join_split(s: Seq<char>)
    ensures
        join_spaces(split_spaces(s)) == s,
    decreases s.len(),
{
    if s.len() > 0 {
        let d = s.drop_last();
        law_join_split(d);
        lemma_split_spaces_len(d);
        let ws = split_spaces(d);
        if s.last() == ' ' {
            assert(ws.push(Seq::<char>::empty()).drop_last() =~= ws);
            assert(join_spaces(ws.push(Seq::<char>::empty())) =~= d + seq![' ']);
            assert(d + seq![' '] =~= s);
        } else {
            lemma_join_extend_last(ws, s.last());
            assert(d.push(s.last()) =~= s);
        }
    }
}

/// Appends `c` to `s`.
#[verifier::external_body]
pub(crate) fn push_char(s: &mut String, c: char)
    ensures
        final(s)@ == old(s)@.push(c),
{
    s.push(c);
}

/// The characters of `s`.
pub fn chars_of(s: &str) -> (r: Vec<char>)
    ensures
        r@ == s@,
{
    broadcast use vstd::string::group_string_axioms;

    let mut r: Vec<char> = Vec::new();
    for c in it: s.chars()
        invariant
            it.seq() == s@,
            r@ == s@.take(it.index() as int),
    {
        r.push(c);
    }
    r
}

/// Splits `s` at every space.
pub fn split_words(s: &str) -> (r: Vec<String>)
    ensures
        strings_view(r@) == split_spaces(s@),
{
    let chars = chars_of(s);
    let mut words: Vec<String> = Vec::new();
    let mut cur = String::new();
    let mut i: usize = 0;
    assert(chars@.take(0) =~= Seq::<char>::empty());
    assert(strings_view(words@).push(cur@) =~= split_spaces(chars@.take(0)));
    while i < chars.len()
        invariant
            i <= chars.len(),
            chars@ == s@,
            strings_view(words@).push(cur@) == split_spaces(chars@.take(i as int)),
        decreases chars.len() - i,
    {
        let c = chars[i];
        let ghost before = chars@.take(i as int);
        assert(chars@.take(i + 1).drop_last() =~= before);
        proof {
            lemma_split_spaces_len(before);
        }
        if c == ' ' {
            words.push(cur);
            cur = String::new();
            assert(strings_view(words@).push(cur@) =~= split_spaces(chars@.take(i + 1)));
        } else {
            push_char(&mut cur, c);
            assert(strings_view(words@).push(cur@) =~= split_spaces(chars@.take(i + 1)));
        }
        i += 1;
    }
    assert(chars@.take(i as int) =~= s@);
    words.push(cur);
    assert(strings_view(words@) =~= split_spaces(s@));
    words
}

/// The words `words[start..end]` joined with single spaces.
pub fn join_range(words: &Vec<String>, start: usize, end: usize) -> (r: String)
    requires
        start <= end <= words.len(),
    ensures
        r@ == join_spaces(strings_view(words@).subrange(start as int, end as int)),
{
    let mut r = String::new();
    let mut i = start;
    assert(strings_view(words@).subrange(start as int, start as int) =~= Seq::<Seq<char>>::empty());
    while i < end
        invariant
            start <= i <= end <= words.len(),
            r@ == join_spaces(strings_view(words@).subrange(start as int, i as int)),
        decreases end - i,
    {
        let ghost prev = strings_view(words@).subrange(start as int, i as int);
        let ghost next = strings_view(words@).subrange(start as int, i + 1);
        assert(next.drop_last() =~= prev);
        if i > start {
            push_char(&mut r, ' ');
        }
        r.append(words[i].as_str());
        assert(r@ =~= join_spaces(next));
        i += 1;
    }
    r
}

/// Appends the decimal digits of `n` to `s`.
fn push_decimal_digits(s: &mut String, n: u64)
    ensures
        final(s)@ == old(s)@ + decimal_digits(n as nat),
    decreases n,
{
    let digits = ['0', '1', '2', '3', '4', '5', '6', '7', '8', '9'];
    if n >= 10 {
        push_decimal_digits(s, n / 10);
    }
    let d = (n % 10) as usize;
    push_char(s, digits[d]);
    assert(digits@ =~= seq!['0', '1', '2', '3', '4', '5', '6', '7', '8', '9']);
    assert(final(s)@ =~= old(s)@ + decimal_digits(n as nat));
}

/// `x` written in decimal.
pub fn decimal_string(x: i64) -> (r: String)
    ensures
        r@ == decimal(x as int),
{
    let mut r = String::new();
    if x < 0 {
        push_char(&mut r, '-');
        let m: u64 = (-(x as i128)) as u64;
        push_decimal_digits(&mut r, m);
    } else {
        push_decimal_digits(&mut r, x as u64);
    }
    assert(r@ =~= decimal(x as int));
    r
}

/// Whether `a` and `b` hold the same characters.
pub fn str_eq(a: &str, b: &str) -> (r: bool)
    ensures
        r == (a@ == b@),
{
    broadcast use vstd::utf8::encode_utf8_decode_utf8;

    let x = a.as_bytes();
    let y = b.as_bytes();
    if x.len() != y.len() {
        assert(a.spec_bytes() != b.spec_bytes());
        return false;
    }
    let mut i: usize = 0;
    while i < x.len()
        invariant
            x@ == a.spec_bytes(),
            y@ == b.spec_bytes(),
            x.len() == y.len(),
            i <= x.len(),
            forall|j: int| 0 <= j < i ==> x@[j] == y@[j],
        decreases x.len() - i,
    {
        if x[i] != y[i] {
            assert(x@[i as int] != y@[i as int]);
            assert(a.spec_bytes() != b.spec_bytes());
            return false;
        }
        i += 1;
    }
    assert(x@ =~= y@);
    assert(vstd::utf8::decode_utf8(a.spec_bytes()) == vstd::utf8::decode_utf8(b.spec_bytes()));
    true
}

} // verus!
