use vstd::prelude::*;

verus! {

/// The decimal digit character for `d < 10`.
pub open spec fn digit_char(d: nat) -> char {
    seq!['0', '1', '2', '3', '4', '5', '6', '7', '8', '9'][d as int]
}

/// The decimal representation of `n`, without leading zeros.
pub open spec fn decimal(n: nat) -> Seq<char>
    decreases n,
{
    if n < 10 {
        seq![digit_char(n)]
    } else {
        decimal(n / 10).push(digit_char(n % 10))
    }
}

/// Writes `n` in decimal.
pub fn decimal_string(n: u64) -> (r: String)
    ensures
        r@ == decimal(n as nat),
    decreases n,
{
    let table = "0123456789";
    proof {
        reveal_strlit("0123456789");
    }
    let d = (n % 10) as usize;
    let digit = table.substring_char(d, d + 1);
    assert(digit@ =~= seq![digit_char(d as nat)]);
    if n < 10 {
        String::from_str(digit)
    } else {
        let mut s = decimal_string(n / 10);
        s.append(digit);
        assert(s@ =~= decimal(n as nat));
        s
    }
}

/// The characters with the Unicode `White_Space` property, which separate
/// words.
pub open spec fn is_space(c: char) -> bool {
    let u = c as u32;
    (0x09 <= u <= 0x0d) || u == 0x20 || u == 0x85 || u == 0xa0 || u == 0x1680 || (0x2000 <= u
        <= 0x200a) || u == 0x2028 || u == 0x2029 || u == 0x202f || u == 0x205f || u == 0x3000
}

/// How many words `s` holds: the positions where a character other than
/// whitespace follows whitespace or the start.
pub open spec fn words_spec(s: Seq<char>) -> nat
    decreases s.len(),
{
    if s.len() == 0 {
        0
    } else {
        let prev = words_spec(s.drop_last());
        if !is_space(s.last()) && (s.len() == 1 || is_space(s[s.len() - 2])) {
            prev + 1
        } else {
            prev
        }
    }
}

fn is_space_exec(c: char) -> (r: bool)
    ensures
        r == is_space(c),
{
    let u = c as u32;
    (0x09 <= u && u <= 0x0d) || u == 0x20 || u == 0x85 || u == 0xa0 || u == 0x1680 || (0x2000 <= u
        && u <= 0x200a) || u == 0x2028 || u == 0x2029 || u == 0x202f || u == 0x205f || u == 0x3000
}

/// The minutes that `words` words take to read at 200 a minute, rounded
/// up, and one at least.
pub open spec fn reading_time_spec(words: nat) -> nat {
    if words == 0 {
        1
    } else {
        ((words + 199) / 200) as nat
    }
}

/// Counts the words of `s`.
pub fn word_count(s: &str) -> (r: usize)
    ensures
        r == words_spec(s@),
{
    let n = s.unicode_len();
    let mut count: usize = 0;
    let mut prev_space = true;
    let mut i: usize = 0;
    while i < n
        invariant
            n == s@.len(),
            i <= n,
            count == words_spec(s@.take(i as int)),
            count <= i,
            prev_space == (i == 0 || is_space(s@[i - 1])),
        decreases n - i,
    {
        let space = is_space_exec(s.get_char(i));
        assert(s@.take(i + 1).drop_last() =~= s@.take(i as int));
        if !space && prev_space {
            count += 1;
        }
        prev_space = space;
        i += 1;
    }
    assert(s@.take(n as int) =~= s@);
    count
}

/// The minutes that `words` words take to read.
pub fn reading_time(words: usize) -> (r: usize)
    ensures
        r == reading_time_spec(words as nat),
{
    if words == 0 {
        1
    } else {
        words / 200 + if words % 200 == 0 {
            0
        } else {
            1
        }
    }
}

/// The components joined by `/`.
pub open spec fn joined(c: Seq<Seq<char>>) -> Seq<char>
    decreases c.len(),
{
    if c.len() == 0 {
        seq![]
    } else if c.len() == 1 {
        c[0]
    } else {
        joined(c.drop_last()) + seq!['/'] + c.last()
    }
}

/// The root-relative URL path of a directory: its components joined by
/// `/`, then `/`.
pub open spec fn path_of(c: Seq<Seq<char>>) -> Seq<char> {
    joined(c) + seq!['/']
}

/// Builds the URL path of a directory from its components.
pub fn join_path(c: &Vec<String>) -> (r: String)
    ensures
        r@ == path_of(c.deep_view()),
{
    proof {
        reveal_strlit("/");
    }
    let mut r = String::new();
    let mut i: usize = 0;
    while i < c.len()
        invariant
            i <= c@.len(),
            r@ == joined(c.deep_view().take(i as int)),
        decreases c@.len() - i,
    {
        assert(c.deep_view().take(i + 1).drop_last() =~= c.deep_view().take(i as int));
        assert(c.deep_view()[i as int] == c@[i as int]@);
        assert(c.deep_view().take(i + 1).last() == c.deep_view()[i as int]);
        proof {
            reveal_strlit("/");
        }
        if i > 0 {
            r.append("/");
        }
        r.append(c[i].as_str());
        i += 1;
        assert(r@ =~= joined(c.deep_view().take(i as int)));
    }
    assert(c.deep_view().take(c@.len() as int) =~= c.deep_view());
    r.append("/");
    r
}

/// The components that are not empty, in order.
pub open spec fn non_empty(c: Seq<Seq<char>>) -> Seq<Seq<char>> {
    c.filter(|x: Seq<char>| x.len() > 0)
}

/// Keeps the components that are not empty.
pub fn non_empty_components(c: &Vec<String>) -> (r: Vec<String>)
    ensures
        r.deep_view() == non_empty(c.deep_view()),
{
    let mut r: Vec<String> = Vec::new();
    let mut i: usize = 0;
    while i < c.len()
        invariant
            i <= c@.len(),
            r.deep_view() == non_empty(c.deep_view().take(i as int)),
        decreases c@.len() - i,
    {
        assert(c.deep_view().take(i + 1).drop_last() =~= c.deep_view().take(i as int));
        reveal(Seq::filter);
        if c[i].as_str().unicode_len() > 0 {
            r.push(c[i].clone());
        }
        i += 1;
        assert(r.deep_view() =~= non_empty(c.deep_view().take(i as int)));
    }
    assert(c.deep_view().take(c@.len() as int) =~= c.deep_view());
    r
}

/// A copy of a list of components.
pub fn copy_components(c: &Vec<String>) -> (r: Vec<String>)
    ensures
        r@ == c@,
        r.deep_view() == c.deep_view(),
{
    let mut r: Vec<String> = Vec::new();
    let mut i: usize = 0;
    while i < c.len()
        invariant
            i <= c@.len(),
            r@ == c@.take(i as int),
        decreases c@.len() - i,
    {
        r.push(c[i].clone());
        i += 1;
        assert(r@ =~= c@.take(i as int));
    }
    assert(r@ =~= c@);
    r
}

} // verus!
