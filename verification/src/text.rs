use vstd::prelude::*;

verus! {

/// The characters of `s`, in order.
pub fn chars_of(s: &str) -> (r: Vec<char>)
    ensures
        r@ == s@,
{
    let mut r: Vec<char> = Vec::new();
    for c in it: s.chars()
        invariant
            r@ == it.seq().take(it.index() as int),
            it.seq() == s@,
    {
        r.push(c);
        assert(r@ =~= it.seq().take(it.index() + 1));
    }
    assert(s@.take(s@.len() as int) =~= s@);
    r
}

/// Whether `a` and `b` hold the same characters.
pub fn same_chars(a: &Vec<char>, b: &Vec<char>) -> (r: bool)
    ensures
        r == (a@ == b@),
{
    if a.len() != b.len() {
        return false;
    }
    let mut i: usize = 0;
    while i < a.len()
        invariant
            0 <= i <= a.len(),
            a.len() == b.len(),
            forall|j: int| 0 <= j < i ==> a@[j] == b@[j],
        decreases a.len() - i,
    {
        if a[i] != b[i] {
            return false;
        }
        i += 1;
    }
    assert(a@ =~= b@);
    true
}

/// Whether `token` spells `word`.
pub fn is_word(token: &Vec<char>, word: &str) -> (r: bool)
    ensures
        r == (token@ == word@),
{
    let w = chars_of(word);
    same_chars(token, &w)
}

/// The number of characters of `s` before its first space; all of them
/// when it holds none.
pub open spec fn first_space(s: Seq<char>) -> int
    decreases s.len(),
{
    if s.len() == 0 || s[0] == ' ' {
        0
    } else {
        1 + first_space(s.drop_first())
    }
}

/// The fields of a line: the stretches between its spaces. A line with
/// `n` spaces has `n + 1` fields, empty ones where two spaces touch or a
/// space stands at either end.
pub open spec fn fields(s: Seq<char>) -> Seq<Seq<char>>
    decreases s.len(),
{
    let n = first_space(s);
    if 0 <= n < s.len() {
        seq![s.take(n)] + fields(s.skip(n + 1))
    } else {
        seq![s]
    }
}

/// `first_space` is the place of the first space.
pub proof fn lemma_first_space(s: Seq<char>, n: int)
    requires
        0 <= n <= s.len(),
        forall|j: int| 0 <= j < n ==> s[j] != ' ',
        n < s.len() ==> s[n] == ' ',
    ensures
        first_space(s) == n,
    decreases n,
{
    if n > 0 {
        lemma_first_space(s.drop_first(), n - 1);
    }
}

/// A line has at least one field, and no field holds a space.
pub proof fn lemma_fields_shape(s: Seq<char>)
    ensures
        fields(s).len() >= 1,
        forall|i: int, j: int|
            0 <= i < fields(s).len() && 0 <= j < fields(s)[i].len() ==> (#[trigger] fields(
                s,
            )[i][j]) != ' ',
    decreases s.len(),
{
    let n = first_space(s);
    lemma_first_space_bounds(s);
    if 0 <= n < s.len() {
        lemma_fields_shape(s.skip(n + 1));
        let rest = fields(s.skip(n + 1));
        assert forall|i: int, j: int|
            0 <= i < fields(s).len() && 0 <= j < fields(s)[i].len() implies (#[trigger] fields(
            s,
        )[i][j]) != ' ' by {
            if i > 0 {
                assert(fields(s)[i] == rest[i - 1]);
                assert(rest[i - 1][j] != ' ');
            }
        }
    }
}

/// `first_space` lies within the line, before it stands no space, and at
/// it stands one unless it is the end of the line.
pub proof fn lemma_first_space_bounds(s: Seq<char>)
    ensures
        0 <= first_space(s) <= s.len(),
        forall|j: int| 0 <= j < first_space(s) ==> s[j] != ' ',
        first_space(s) < s.len() ==> s[first_space(s)] == ' ',
    decreases s.len(),
{
    if s.len() > 0 && s[0] != ' ' {
        lemma_first_space_bounds(s.drop_first());
        assert forall|j: int| 0 <= j < first_space(s) implies s[j] != ' ' by {
            if j > 0 {
                assert(s[j] == s.drop_first()[j - 1]);
            }
        }
    }
}

/// Cuts `line` into its fields.
pub fn split(line: &Vec<char>) -> (r: Vec<Vec<char>>)
    ensures
        r@.len() == fields(line@).len(),
        r@.len() >= 1,
        forall|i: int| 0 <= i < r@.len() ==> (#[trigger] r@[i])@ == fields(line@)[i],
{
    let mut out: Vec<Vec<char>> = Vec::new();
    let mut cur: Vec<char> = Vec::new();
    let ghost mut start: int = 0;
    let ghost mut done: Seq<Seq<char>> = Seq::empty();
    let mut i: usize = 0;
    proof {
        assert(line@.skip(0) =~= line@);
    }
    while i < line.len()
        invariant
            0 <= start <= i <= line.len(),
            cur@ == line@.subrange(start, i as int),
            forall|j: int| start <= j < i ==> line@[j] != ' ',
            out@.len() == done.len(),
            forall|j: int| 0 <= j < out@.len() ==> (#[trigger] out@[j])@ == done[j],
            fields(line@) == done + fields(line@.skip(start)),
        decreases line.len() - i,
    {
        let c = line[i];
        if c == ' ' {
            proof {
                let tail = line@.skip(start);
                lemma_first_space(tail, i - start);
                assert(tail.take(i - start) =~= cur@);
                assert(tail.skip(i - start + 1) =~= line@.skip(i + 1));
                assert(done + (seq![cur@] + fields(line@.skip(i + 1))) =~= done.push(cur@) + fields(
                    line@.skip(i + 1),
                ));
                done = done.push(cur@);
                start = i + 1;
            }
            out.push(cur);
            cur = Vec::new();
            assert(cur@ =~= line@.subrange(start, i + 1));
        } else {
            cur.push(c);
            assert(cur@ =~= line@.subrange(start, i + 1));
        }
        i += 1;
    }
    proof {
        let tail = line@.skip(start);
        lemma_first_space(tail, tail.len() as int);
        assert(tail =~= cur@);
        assert(done + seq![cur@] =~= done.push(cur@));
        done = done.push(cur@);
    }
    out.push(cur);
    out
}

/// Whether `c` is one of the ten digits.
pub open spec fn is_digit(c: char) -> bool {
    '0' <= c <= '9'
}

/// The number that the digit `c` stands for.
pub open spec fn digit(c: char) -> int {
    c as int - '0' as int
}

/// The number that a run of digits spells in base ten.
pub open spec fn digits_value(s: Seq<char>) -> int
    decreases s.len(),
{
    if s.len() == 0 {
        0
    } else {
        digits_value(s.drop_last()) * 10 + digit(s.last())
    }
}

/// Whether `s` holds digits only.
pub open spec fn all_digits(s: Seq<char>) -> bool {
    forall|i: int| 0 <= i < s.len() ==> is_digit(#[trigger] s[i])
}

/// The number that `s` spells, when it is one that does not exceed
/// `max`: one digit or more, with a `+` before them or without.
pub open spec fn number(s: Seq<char>, max: int) -> Option<int> {
    let body = if s.len() > 0 && s[0] == '+' {
        s.drop_first()
    } else {
        s
    };
    if body.len() > 0 && all_digits(body) && digits_value(body) <= max {
        Some(digits_value(body))
    } else {
        None
    }
}

/// A run of digits spells no less than any of its beginnings.
pub proof fn lemma_digits_grow(s: Seq<char>, k: int)
    requires
        all_digits(s),
        0 <= k <= s.len(),
    ensures
        0 <= digits_value(s.take(k)) <= digits_value(s),
    decreases s.len(),
{
    if s.len() == 0 {
        assert(s.take(k) =~= s);
    } else if k == s.len() {
        assert(s.take(k) =~= s);
        lemma_digits_grow(s.drop_last(), k - 1);
        assert(s.drop_last().take(k - 1) =~= s.drop_last());
        assert(is_digit(s.last()));
    } else {
        lemma_digits_grow(s.drop_last(), k);
        assert(s.drop_last().take(k) =~= s.take(k));
        assert(is_digit(s.last()));
        assert forall|i: int| 0 <= i < s.drop_last().len() implies is_digit(
            #[trigger] s.drop_last()[i],
        ) by {
            assert(s.drop_last()[i] == s[i]);
        }
    }
}

/// Reads `s` as a number that does not exceed `max`.
pub fn parse_number(s: &Vec<char>, max: usize) -> (r: Option<usize>)
    ensures
        match r {
            Some(n) => number(s@, max as int) == Some(n as int),
            None => number(s@, max as int) is None,
        },
{
    let start: usize = if s.len() > 0 && s[0] == '+' {
        1
    } else {
        0
    };
    let ghost body = s@.skip(start as int);
    if start >= s.len() {
        return None;
    }
    let mut acc: usize = 0;
    let mut i: usize = start;
    proof {
        assert(body.take(0) =~= Seq::<char>::empty());
        assert(body =~= if s@.len() > 0 && s@[0] == '+' {
            s@.drop_first()
        } else {
            s@
        });
    }
    while i < s.len()
        invariant
            start <= i <= s.len(),
            start < s.len(),
            body == s@.skip(start as int),
            body == if s@.len() > 0 && s@[0] == '+' {
                s@.drop_first()
            } else {
                s@
            },
            all_digits(body.take(i - start)),
            acc == digits_value(body.take(i - start)),
            acc <= max,
        decreases s.len() - i,
    {
        let c = s[i];
        let ghost longer = body.take(i - start + 1);
        proof {
            assert(longer.drop_last() =~= body.take(i - start));
            assert(longer.last() == c);
        }
        if c < '0' || c > '9' {
            assert(!is_digit(body[i - start]));
            return None;
        }
        let d: u128 = (c as u32 - '0' as u32) as u128;
        let next: u128 = (acc as u128) * 10 + d;
        if next > max as u128 {
            proof {
                if all_digits(body) {
                    lemma_digits_grow(body, i - start + 1);
                }
            }
            return None;
        }
        acc = next as usize;
        i += 1;
        proof {
            assert forall|j: int| 0 <= j < longer.len() implies is_digit(#[trigger] longer[j]) by {
                if j < longer.len() - 1 {
                    assert(longer[j] == body.take(i - start - 1)[j]);
                }
            }
        }
    }
    proof {
        assert(body.take(s.len() - start) =~= body);
    }
    Some(acc)
}

} // verus!
