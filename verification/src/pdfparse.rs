use vstd::prelude::*;
use vstd::string::StringExecFns;

use crate::text::{decimal, lemma_decimal_injective, push_decimal, string_of};

verus! {

// ---------------------------------------------------------------------------
// Thumbnail files
// ---------------------------------------------------------------------------

/// The number that std's `DefaultHasher::new()` gives after hashing the
/// path with this text (`Path::hash`, then `Hasher::finish`).
pub uninterp spec fn path_hash(path: Seq<char>) -> u64;

/// Hashes a path with std's `DefaultHasher::new()` (`Path::hash`, then
/// `Hasher::finish`). The hasher that `new` makes is not seeded per
/// process, so the number is a function of the path's text; which number
/// it is, is left unsaid.
#[verifier::external_body]
fn hash_path(path: &str) -> (h: u64)
    ensures
        h == path_hash(path@),
{
    let mut hasher = std::collections::hash_map::DefaultHasher::new();
    std::hash::Hash::hash(std::path::Path::new(path), &mut hasher);
    std::hash::Hasher::finish(&hasher)
}

/// The file name of the thumbnail of a page: the path's hash and the page
/// number in decimal, joined by `-`, with the extension `.svg`.
pub open spec fn thumbnail_name(hash: u64, page: nat) -> Seq<char> {
    decimal(hash as nat) + seq!['-'] + decimal(page) + seq!['.', 's', 'v', 'g']
}

/// `name` put inside the directory `dir`: a `/` goes between them unless
/// `dir` is empty or already ends in `/`.
pub open spec fn join_path(dir: Seq<char>, name: Seq<char>) -> Seq<char> {
    if dir.len() == 0 || dir.last() == '/' {
        dir + name
    } else {
        dir + seq!['/'] + name
    }
}

/// Where the thumbnail of page `page` of the PDF at `path` is kept, inside
/// the directory `cache_dir`.
pub open spec fn thumbnail_path(cache_dir: Seq<char>, path: Seq<char>, page: nat) -> Seq<char> {
    join_path(cache_dir, thumbnail_name(path_hash(path), page))
}

/// Where the thumbnail of a page is kept, inside `cache_dir`, given the
/// hash of its PDF's path (see `thumbnail_name` and `join_path`).
pub fn thumbnail_for_hash(cache_dir: &str, hash: u64, page: usize) -> (r: String)
    ensures
        r@ == join_path(cache_dir@, thumbnail_name(hash, page as nat)),
{
    let mut name: Vec<char> = Vec::new();
    push_decimal(&mut name, hash);
    name.push('-');
    push_decimal(&mut name, page as u64);
    name.push('.');
    name.push('s');
    name.push('v');
    name.push('g');
    assert(name@ =~= thumbnail_name(hash, page as nat));
    let mut out = String::from_str(cache_dir);
    let n = cache_dir.unicode_len();
    if n > 0 && cache_dir.get_char(n - 1) != '/' {
        out.append("/");
        proof {
            reveal_strlit("/");
        }
    }
    let name_s = string_of(&name);
    out.append(name_s.as_str());
    assert(out@ =~= join_path(cache_dir@, thumbnail_name(hash, page as nat)));
    out
}

/// Where the thumbnail of page `page` of the PDF at `path` is kept, inside
/// `cache_dir` (see `thumbnail_path`).
pub fn get_thumbnail(cache_dir: &str, path: &str, page: usize) -> (r: String)
    ensures
        r@ == thumbnail_path(cache_dir@, path@, page as nat),
{
    let h = hash_path(path);
    thumbnail_for_hash(cache_dir, h, page)
}

/// Whether a thumbnail is older than its PDF; no thumbnail is ever taken
/// for older than its PDF.
pub fn older_than(thumb: &str, pdf: &str) -> (r: bool)
    ensures
        !r,
{
    false
}

/// Whether a thumbnail has to be drawn: when its file does not exist, or
/// is older than the PDF.
pub fn thumbnail_needs_render(thumb_exists: bool, thumb: &str, pdf: &str) -> (r: bool)
    ensures
        r == !thumb_exists,
{
    !thumb_exists || older_than(thumb, pdf)
}

/// Two pages of one PDF never share a thumbnail file.
pub proof fn lemma_thumbnail_pages_distinct(cache_dir: Seq<char>, path: Seq<char>, p1: nat, p2: nat)
    requires
        p1 != p2,
    ensures
        thumbnail_path(cache_dir, path, p1) != thumbnail_path(cache_dir, path, p2),
{
    let h = path_hash(path);
    let pre = decimal(h as nat) + seq!['-'];
    let ext = seq!['.', 's', 'v', 'g'];
    let n1 = thumbnail_name(h, p1);
    let n2 = thumbnail_name(h, p2);
    let sep: Seq<char> = if cache_dir.len() == 0 || cache_dir.last() == '/' {
        Seq::empty()
    } else {
        seq!['/']
    };
    let lead = cache_dir + sep;
    assert(join_path(cache_dir, n1) =~= lead + n1);
    assert(join_path(cache_dir, n2) =~= lead + n2);
    if join_path(cache_dir, n1) == join_path(cache_dir, n2) {
        assert(n1 =~= (lead + n1).skip(lead.len() as int));
        assert(n2 =~= (lead + n2).skip(lead.len() as int));
        assert(n1 =~= pre + (decimal(p1) + ext));
        assert(n2 =~= pre + (decimal(p2) + ext));
        assert(decimal(p1) + ext =~= n1.skip(pre.len() as int));
        assert(decimal(p2) + ext =~= n2.skip(pre.len() as int));
        let d1 = decimal(p1) + ext;
        let d2 = decimal(p2) + ext;
        assert(decimal(p1) =~= d1.take(decimal(p1).len() as int));
        assert(decimal(p2) =~= d2.take(decimal(p2).len() as int));
        assert(decimal(p1) == decimal(p2));
        lemma_decimal_injective(p1, p2);
    }
}

// ---------------------------------------------------------------------------
// Guessing which pages start frames
// ---------------------------------------------------------------------------

/// The label of each page: its own label, or, when it has none, its index
/// in decimal.
pub open spec fn page_labels(labels: Seq<Option<Seq<char>>>) -> Seq<Seq<char>> {
    Seq::new(
        labels.len(),
        |i: int|
            match labels[i] {
                Some(l) => l,
                None => decimal(i as nat),
            },
    )
}

/// Some page before page `i` has the same label.
pub open spec fn seen_before(ls: Seq<Seq<char>>, i: int) -> bool {
    exists|j: int| 0 <= j < i && ls[j] == ls[i]
}

/// The pages among the first `n` whose label no earlier page has, in
/// increasing order.
pub open spec fn first_pages(ls: Seq<Seq<char>>, n: nat) -> Seq<usize>
    decreases n,
{
    if n == 0 {
        Seq::empty()
    } else {
        let prev = first_pages(ls, (n - 1) as nat);
        if seen_before(ls, n - 1) {
            prev
        } else {
            prev.push((n - 1) as usize)
        }
    }
}

/// The pages `first_pages` picks are increasing, below `n`, and each has a
/// label that no earlier page has.
pub proof fn lemma_first_pages_sorted(ls: Seq<Seq<char>>, n: nat)
    requires
        n <= usize::MAX + 1,
    ensures
        forall|a: int, b: int|
            0 <= a < b < first_pages(ls, n).len() ==> first_pages(ls, n)[a] < first_pages(
                ls,
                n,
            )[b],
        forall|a: int|
            0 <= a < first_pages(ls, n).len() ==> first_pages(ls, n)[a] < n,
        forall|a: int|
            0 <= a < first_pages(ls, n).len() ==> !seen_before(ls, #[trigger] first_pages(ls, n)[a] as int),
    decreases n,
{
    if n > 0 {
        let m = (n - 1) as nat;
        lemma_first_pages_sorted(ls, m);
        let prev = first_pages(ls, m);
        let cur = first_pages(ls, n);
        if !seen_before(ls, m as int) {
            assert(cur == prev.push(m as usize));
            assert forall|a: int| 0 <= a < cur.len() implies !seen_before(ls, #[trigger] cur[a] as int) by {
                if a < prev.len() {
                    assert(cur[a] == prev[a]);
                }
            }
        }
    }
}

/// Page `i`, among the first `n`, shares its label with a page that
/// `first_pages` picks, at or before it.
pub proof fn lemma_first_pages_covers(ls: Seq<Seq<char>>, n: nat, i: int)
    requires
        0 <= i < n,
        n <= usize::MAX + 1,
    ensures
        exists|a: int|
            #![trigger first_pages(ls, n)[a]]
            0 <= a < first_pages(ls, n).len() && first_pages(ls, n)[a] <= i && ls[first_pages(
                ls,
                n,
            )[a] as int] == ls[i],
    decreases n,
{
    let m = (n - 1) as nat;
    let prev = first_pages(ls, m);
    let cur = first_pages(ls, n);
    if i < m {
        lemma_first_pages_covers(ls, m, i);
        let a = choose|a: int|
            #![trigger first_pages(ls, m)[a]]
            0 <= a < first_pages(ls, m).len() && first_pages(ls, m)[a] <= i && ls[first_pages(
                ls,
                m,
            )[a] as int] == ls[i];
        assert(cur[a] == prev[a]);
    } else if seen_before(ls, i) {
        let j = choose|j: int| 0 <= j < i && ls[j] == ls[i];
        lemma_first_pages_covers(ls, m, j);
        let a = choose|a: int|
            #![trigger first_pages(ls, m)[a]]
            0 <= a < first_pages(ls, m).len() && first_pages(ls, m)[a] <= j && ls[first_pages(
                ls,
                m,
            )[a] as int] == ls[j];
        assert(cur[a] == prev[a]);
    } else {
        let a = prev.len() as int;
        assert(cur == prev.push(m as usize));
        assert(cur[a] == i);
    }
}

/// The pages that start frames, guessed from page labels: a page starts a
/// frame when no earlier page has its label. `labels[i]` is the label of
/// page `i`, if it has one; a page without one is labelled by its index.
/// The pages come in increasing order.
pub fn first_label_pages(labels: &Vec<Option<String>>) -> (r: Vec<usize>)
    ensures
        r@ == first_pages(
            page_labels(
                labels@.map_values(
                    |o: Option<String>|
                        match o {
                            Some(l) => Some(l@),
                            None => None,
                        },
                ),
            ),
            labels@.len(),
        ),
{
    let ghost opts = labels@.map_values(
        |o: Option<String>|
            match o {
                Some(l) => Some(l@),
                None => None,
            },
    );
    let ghost ls = page_labels(opts);
    // The label of every page.
    let mut eff: Vec<String> = Vec::new();
    let mut i: usize = 0;
    while i < labels.len()
        invariant
            i <= labels@.len(),
            opts == labels@.map_values(
                |o: Option<String>|
                    match o {
                        Some(l) => Some(l@),
                        None => None,
                    },
            ),
            ls == page_labels(opts),
            eff@.len() == i,
            forall|k: int| 0 <= k < i ==> #[trigger] eff@[k]@ == ls[k],
        decreases labels@.len() - i,
    {
        match &labels[i] {
            Some(l) => {
                eff.push(l.clone());
            },
            None => {
                let mut d: Vec<char> = Vec::new();
                push_decimal(&mut d, i as u64);
                assert(d@ =~= decimal(i as nat));
                eff.push(string_of(&d));
            },
        }
        i = i + 1;
    }
    // The pages whose label no earlier page has.
    let mut r: Vec<usize> = Vec::new();
    let mut i: usize = 0;
    while i < eff.len()
        invariant
            i <= eff@.len(),
            eff@.len() == ls.len(),
            ls.len() == labels@.len(),
            ls == page_labels(opts),
            opts == labels@.map_values(
                |o: Option<String>|
                    match o {
                        Some(l) => Some(l@),
                        None => None,
                    },
            ),
            forall|k: int| 0 <= k < eff@.len() ==> #[trigger] eff@[k]@ == ls[k],
            r@ == first_pages(ls, i as nat),
        decreases eff@.len() - i,
    {
        let mut seen = false;
        let mut j: usize = 0;
        while j < i
            invariant
                j <= i < eff@.len(),
                forall|k: int| 0 <= k < eff@.len() ==> #[trigger] eff@[k]@ == ls[k],
                seen <==> exists|k: int| 0 <= k < j && ls[k] == ls[i as int],
            decreases i - j,
        {
            if eff[j] == eff[i] {
                seen = true;
            }
            j = j + 1;
        }
        if !seen {
            r.push(i);
        }
        i = i + 1;
    }
    r
}

} // verus!
