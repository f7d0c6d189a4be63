use vstd::prelude::*;

verus! {

// ---------------------------------------------------------------------------
// Searching in a sequence of characters
// ---------------------------------------------------------------------------

/// `pat` occurs in `s` starting at index `i`.
pub open spec fn matches_at(s: Seq<char>, pat: Seq<char>, i: int) -> bool {
    &&& 0 <= i
    &&& i + pat.len() <= s.len()
    &&& s.subrange(i, i + pat.len()) == pat
}

/// The first index at or after `from` where `pat` occurs in `s`.
pub open spec fn find_from(s: Seq<char>, pat: Seq<char>, from: int) -> Option<int>
    decreases s.len() - from,
{
    if from < 0 || from >= s.len() || from + pat.len() > s.len() {
        None
    } else if matches_at(s, pat, from) {
        Some(from)
    } else {
        find_from(s, pat, from + 1)
    }
}

/// The last index before `q` where `s` holds the character `c`.
pub open spec fn rfind_before(s: Seq<char>, c: char, q: int) -> Option<int>
    decreases q,
{
    if q <= 0 {
        None
    } else if s[q - 1] == c {
        Some(q - 1)
    } else {
        rfind_before(s, c, q - 1)
    }
}

/// How many times `c` occurs in `s`.
pub open spec fn count_char(s: Seq<char>, c: char) -> nat
    decreases s.len(),
{
    if s.len() == 0 {
        0
    } else {
        count_char(s.drop_last(), c) + if s.last() == c {
            1nat
        } else {
            0nat
        }
    }
}

/// What `find_from` returns: the first occurrence, and nothing before it.
pub proof fn lemma_find_from(s: Seq<char>, pat: Seq<char>, from: int)
    requires
        0 <= from,
    ensures
        find_from(s, pat, from) matches Some(i) ==> {
            &&& from <= i
            &&& matches_at(s, pat, i)
            &&& i + pat.len() <= s.len()
            &&& forall|j: int| from <= j < i ==> !matches_at(s, pat, j)
        },
        find_from(s, pat, from) is None ==> forall|j: int|
            from <= j < s.len() ==> !matches_at(s, pat, j),
        find_from(s, pat, from) is None && pat.len() > 0 ==> forall|j: int|
            from <= j ==> !matches_at(s, pat, j),
    decreases s.len() - from,
{
    if from >= s.len() || from + pat.len() > s.len() {
    } else if matches_at(s, pat, from) {
    } else {
        lemma_find_from(s, pat, from + 1);
    }
}

/// What `rfind_before` returns: the last occurrence before `q`.
pub proof fn lemma_rfind_before(s: Seq<char>, c: char, q: int)
    requires
        q <= s.len(),
    ensures
        rfind_before(s, c, q) matches Some(j) ==> {
            &&& 0 <= j < q
            &&& s[j] == c
            &&& forall|k: int| j < k < q ==> s[k] != c
        },
        rfind_before(s, c, q) is None ==> forall|k: int| 0 <= k < q ==> s[k] != c,
    decreases q,
{
    if q > 0 && s[q - 1] != c {
        lemma_rfind_before(s, c, q - 1);
    }
}

/// `pat` occurs in `s` at index `i`.
pub fn matches_at_exec(s: &Vec<char>, pat: &Vec<char>, i: usize) -> (r: bool)
    ensures
        r == matches_at(s@, pat@, i as int),
{
    if i > s.len() || pat.len() > s.len() - i {
        return false;
    }
    let mut k: usize = 0;
    while k < pat.len()
        invariant
            i + pat@.len() <= s.len(),
            k <= pat@.len(),
            forall|m: int| 0 <= m < k ==> s@[i + m] == pat@[m],
        decreases pat@.len() - k,
    {
        if s[i + k] != pat[k] {
            assert(s@.subrange(i as int, i + pat@.len())[k as int] != pat@[k as int]);
            return false;
        }
        k = k + 1;
    }
    assert(s@.subrange(i as int, i + pat@.len()) =~= pat@);
    true
}

/// The first index at or after `from` where `pat` occurs in `s`
/// (what `str::find` gives on `s[from..]`, counted from the start of `s`).
pub fn find_chars(s: &Vec<char>, pat: &Vec<char>, from: usize) -> (r: Option<usize>)
    requires
        pat@.len() > 0,
    ensures
        match r {
            Some(i) => find_from(s@, pat@, from as int) == Some(i as int),
            None => find_from(s@, pat@, from as int) is None,
        },
{
    let mut i = from;
    while i < s.len() && pat.len() <= s.len() - i
        invariant
            from <= i,
            find_from(s@, pat@, from as int) == find_from(s@, pat@, i as int),
        decreases s@.len() - i,
    {
        if matches_at_exec(s, pat, i) {
            return Some(i);
        }
        i = i + 1;
    }
    None
}

/// The last index before `q` where `s` holds `c`.
pub fn rfind_char(s: &Vec<char>, c: char, q: usize) -> (r: Option<usize>)
    requires
        q <= s@.len(),
    ensures
        match r {
            Some(j) => rfind_before(s@, c, q as int) == Some(j as int),
            None => rfind_before(s@, c, q as int) is None,
        },
{
    let mut j = q;
    while j > 0
        invariant
            j <= q <= s@.len(),
            rfind_before(s@, c, q as int) == rfind_before(s@, c, j as int),
        decreases j,
    {
        if s[j - 1] == c {
            return Some(j - 1);
        }
        j = j - 1;
    }
    None
}

/// How many times `c` occurs among the first `upto` characters of `s`.
pub fn count_char_before(s: &Vec<char>, c: char, upto: usize) -> (r: usize)
    requires
        upto <= s@.len(),
    ensures
        r == count_char(s@.take(upto as int), c),
        r <= upto,
{
    let mut n: usize = 0;
    let mut i: usize = 0;
    while i < upto
        invariant
            i <= upto <= s@.len(),
            n == count_char(s@.take(i as int), c),
            n <= i,
        decreases upto - i,
    {
        assert(s@.take(i + 1).drop_last() =~= s@.take(i as int));
        if s[i] == c {
            n = n + 1;
        }
        i = i + 1;
    }
    n
}

/// The characters of `s` from index `a` up to (not including) index `b`.
pub fn copy_range(s: &Vec<char>, a: usize, b: usize) -> (r: Vec<char>)
    requires
        a <= b <= s@.len(),
    ensures
        r@ == s@.subrange(a as int, b as int),
{
    let mut r: Vec<char> = Vec::new();
    let mut i = a;
    while i < b
        invariant
            a <= i <= b <= s@.len(),
            r@ == s@.subrange(a as int, i as int),
        decreases b - i,
    {
        r.push(s[i]);
        i = i + 1;
        assert(r@ =~= s@.subrange(a as int, i as int));
    }
    r
}

// ---------------------------------------------------------------------------
// Between strings and character vectors
// ---------------------------------------------------------------------------

/// The characters of a string, in order.
pub fn chars_of(s: &str) -> (v: Vec<char>)
    ensures
        v@ == s@,
{
    let mut v: Vec<char> = Vec::new();
    for c in it: s.chars()
        invariant
            v@ == it.seq().take(it.index() as int),
    {
        v.push(c);
    }
    v
}

/// Collects characters into a `String` (std's `FromIterator<char>` for
/// `String`); the string holds exactly the given characters in order.
#[verifier::external_body]
pub(crate) fn string_of(v: &Vec<char>) -> (s: String)
    ensures
        s@ == v@,
{
    v.iter().collect::<String>()
}

// ---------------------------------------------------------------------------
// Lines and joining
// ---------------------------------------------------------------------------

/// `s` cut at every newline: as many pieces as there are newlines, plus one.
pub open spec fn split_lines(s: Seq<char>) -> Seq<Seq<char>>
    decreases s.len(),
{
    if s.len() == 0 {
        seq![Seq::<char>::empty()]
    } else {
        let init = split_lines(s.drop_last());
        if s.last() == '\n' {
            init.push(Seq::<char>::empty())
        } else {
            init.update(init.len() - 1, init.last().push(s.last()))
        }
    }
}

/// The pieces of `ls` put together, with `sep` between each two.
pub open spec fn join(ls: Seq<Seq<char>>, sep: Seq<char>) -> Seq<char>
    decreases ls.len(),
{
    if ls.len() == 0 {
        Seq::<char>::empty()
    } else if ls.len() == 1 {
        ls[0]
    } else {
        join(ls.drop_last(), sep) + sep + ls.last()
    }
}

/// `split_lines` gives one more piece than there are newlines, and no piece
/// holds a newline.
pub proof fn lemma_split_lines(s: Seq<char>)
    ensures
        split_lines(s).len() == count_char(s, '\n') + 1,
        forall|i: int, k: int|
            0 <= i < split_lines(s).len() && 0 <= k < split_lines(s)[i].len()
                ==> split_lines(s)[i][k] != '\n',
    decreases s.len(),
{
    if s.len() > 0 {
        lemma_split_lines(s.drop_last());
    }
}

/// Joining the lines of a text with newlines gives the text back.
pub proof fn lemma_join_split_lines(s: Seq<char>)
    ensures
        join(split_lines(s), seq!['\n']) == s,
    decreases s.len(),
{
    if s.len() > 0 {
        let t = s.drop_last();
        lemma_join_split_lines(t);
        lemma_split_lines(t);
        let init = split_lines(t);
        if s.last() == '\n' {
            let ls = init.push(Seq::<char>::empty());
            assert(ls.drop_last() =~= init);
            assert(join(ls, seq!['\n']) =~= t + seq!['\n']);
            assert(s =~= t + seq!['\n']);
        } else {
            let ls = init.update(init.len() - 1, init.last().push(s.last()));
            lemma_join_last(init, seq!['\n'], s.last());
            assert(s =~= t.push(s.last()));
        }
    }
}

/// Adding a character to the last piece adds it at the end of the join.
pub proof fn lemma_join_last(ls: Seq<Seq<char>>, sep: Seq<char>, c: char)
    requires
        ls.len() > 0,
    ensures
        join(ls.update(ls.len() - 1, ls.last().push(c)), sep) == join(ls, sep).push(c),
{
    let ls2 = ls.update(ls.len() - 1, ls.last().push(c));
    if ls.len() == 1 {
    } else {
        assert(ls2.drop_last() =~= ls.drop_last());
        assert(join(ls2, sep) =~= join(ls, sep).push(c));
    }
}

// ---------------------------------------------------------------------------
// Decimal numerals
// ---------------------------------------------------------------------------

/// The character of a decimal digit.
pub open spec fn digit_char(d: nat) -> char {
    (d + 48) as char
}

/// The decimal numeral of `n`, without leading zeros.
pub open spec fn decimal(n: nat) -> Seq<char>
    decreases n,
{
    if n < 10 {
        seq![digit_char(n)]
    } else {
        decimal(n / 10).push(digit_char(n % 10))
    }
}

/// The number a sequence of decimal digits stands for.
pub open spec fn digits_value(s: Seq<char>) -> int
    decreases s.len(),
{
    if s.len() == 0 {
        0
    } else {
        digits_value(s.drop_last()) * 10 + (s.last() as int - 48)
    }
}

/// Reading a decimal numeral gives its number back.
pub proof fn lemma_decimal_value(n: nat)
    ensures
        digits_value(decimal(n)) == n,
        decimal(n).len() > 0,
    decreases n,
{
    assert(digit_char(n % 10) as int == n % 10 + 48);
    if n < 10 {
        assert(decimal(n).drop_last() =~= Seq::<char>::empty());
        assert(n % 10 == n);
        assert(digits_value(decimal(n)) == digits_value(Seq::<char>::empty()) * 10 + (
        digit_char(n) as int - 48));
    } else {
        lemma_decimal_value(n / 10);
        assert(decimal(n).drop_last() =~= decimal(n / 10));
        assert(decimal(n).last() == digit_char(n % 10));
        assert(digits_value(decimal(n)) == digits_value(decimal(n / 10)) * 10 + (digit_char(
            n % 10,
        ) as int - 48));
        assert((n / 10) * 10 + n % 10 == n) by (nonlinear_arith);
    }
}

/// Two numbers with the same decimal numeral are equal.
pub proof fn lemma_decimal_injective(m: nat, n: nat)
    requires
        decimal(m) == decimal(n),
    ensures
        m == n,
{
    lemma_decimal_value(m);
    lemma_decimal_value(n);
}

/// Appends the decimal numeral of `n` to `out`.
pub fn push_decimal(out: &mut Vec<char>, n: u64)
    ensures
        final(out)@ == old(out)@ + decimal(n as nat),
    decreases n,
{
    if n >= 10 {
        push_decimal(out, n / 10);
    }
    let d: u8 = (n % 10) as u8;
    let c: char = (d + 48) as char;
    assert(c == digit_char((n % 10) as nat));
    out.push(c);
    assert(out@ =~= old(out)@ + decimal(n as nat));
}


/// A text without newlines is a single line.
pub proof fn lemma_split_single(t: Seq<char>)
    requires
        forall|k: int| 0 <= k < t.len() ==> t[k] != '\n',
    ensures
        split_lines(t) == seq![t],
    decreases t.len(),
{
    if t.len() > 0 {
        lemma_split_single(t.drop_last());
        assert(t.drop_last().push(t.last()) =~= t);
        assert(seq![t.drop_last()].update(0, t.drop_last().push(t.last())) =~= seq![t]);
    } else {
        assert(t =~= Seq::<char>::empty());
    }
}

/// A newline followed by a text without newlines adds that text as a new
/// last line.
pub proof fn lemma_split_append(a: Seq<char>, b: Seq<char>)
    requires
        forall|k: int| 0 <= k < b.len() ==> b[k] != '\n',
    ensures
        split_lines(a + seq!['\n'] + b) == split_lines(a).push(b),
    decreases b.len(),
{
    let t = a + seq!['\n'] + b;
    if b.len() == 0 {
        assert(t.drop_last() =~= a);
        assert(b =~= Seq::<char>::empty());
    } else {
        let b0 = b.drop_last();
        lemma_split_append(a, b0);
        assert(t.drop_last() =~= a + seq!['\n'] + b0);
        assert(b0.push(b.last()) =~= b);
        assert(b.last() != '\n');
        assert(t.last() == b.last());
        assert(split_lines(a).push(b0).update(
            split_lines(a).len() as int,
            b0.push(b.last()),
        ) =~= split_lines(a).push(b));
    }
}

/// Cutting lines joined by newlines at their newlines gives the lines back,
/// when no line holds a newline.
pub proof fn lemma_split_join(ls: Seq<Seq<char>>)
    requires
        ls.len() > 0,
        forall|i: int, k: int| 0 <= i < ls.len() && 0 <= k < ls[i].len() ==> ls[i][k] != '\n',
    ensures
        split_lines(join(ls, seq!['\n'])) == ls,
    decreases ls.len(),
{
    if ls.len() == 1 {
        lemma_split_single(ls[0]);
        assert(seq![ls[0]] =~= ls);
    } else {
        let init = ls.drop_last();
        lemma_split_join(init);
        lemma_split_append(join(init, seq!['\n']), ls.last());
        assert(init.push(ls.last()) =~= ls);
    }
}

} // verus!
