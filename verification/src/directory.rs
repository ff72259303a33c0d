//! The order in which the plans of a directory are listed: most recently
//! modified first, then by title without regard to case; plans that compare
//! equal keep the order in which they were found.
use vstd::prelude::*;
use crate::parser::TodoFile;
use crate::text::{chars_of, string_views};

verus! {

/// What `str::to_lowercase` returns for a string: its lowercase mapping
/// under the Unicode `Lowercase` property.
pub uninterp spec fn lowercase(s: Seq<char>) -> Seq<char>;

/// Calls `str::to_lowercase`. The result is named `lowercase` of the
/// argument; nothing more is stated of it.
#[verifier::external_body]
fn to_lowercase(s: &str) -> (r: String)
    ensures
        r@ == lowercase(s@),
{
    s.to_lowercase()
}

/// `a` is later than `b` in the order of `Option`, where `None` is earliest.
pub open spec fn later(a: Option<i128>, b: Option<i128>) -> bool {
    match (a, b) {
        (Some(x), Some(y)) => x > y,
        (Some(_), None) => true,
        _ => false,
    }
}

/// Lexicographic order on characters: the order of `str::cmp`, since UTF-8
/// keeps the order of code points.
pub open spec fn lex_less(a: Seq<char>, b: Seq<char>) -> bool
    decreases a.len(),
{
    if a.len() == 0 {
        b.len() > 0
    } else if b.len() == 0 {
        false
    } else if a[0] != b[0] {
        a[0] < b[0]
    } else {
        lex_less(a.drop_first(), b.drop_first())
    }
}

/// A plan with modification time `ma` and folded title `la` is listed before
/// one with `mb` and `lb`.
pub open spec fn listed_before(ma: Option<i128>, la: Seq<char>, mb: Option<i128>, lb: Seq<char>) -> bool {
    later(ma, mb) || (ma == mb && lex_less(la, lb))
}

/// The case-folded titles by which plans are ordered.
pub open spec fn folded_titles(files: Seq<TodoFile>) -> Seq<Seq<char>> {
    files.map_values(|f: TodoFile| lowercase(f.title@))
}

pub open spec fn key_before(inp: Seq<TodoFile>, keys: Seq<Seq<char>>, i: int, j: int) -> bool {
    listed_before(inp[i].modified, keys[i], inp[j].modified, keys[j])
}

pub open spec fn same_key(inp: Seq<TodoFile>, keys: Seq<Seq<char>>, i: int, j: int) -> bool {
    inp[i].modified == inp[j].modified && keys[i] == keys[j]
}

/// `out` lists `inp[perm[0]], inp[perm[1]], ...`: every plan once, none
/// listed after one that comes before it, and plans with equal keys in
/// their input order. This is what a stable sort by the keys gives.
pub open spec fn is_stable_order(
    out: Seq<TodoFile>,
    inp: Seq<TodoFile>,
    keys: Seq<Seq<char>>,
    perm: Seq<int>,
) -> bool {
    &&& perm.len() == inp.len()
    &&& out.len() == inp.len()
    &&& forall|i: int| 0 <= i < perm.len() ==> 0 <= #[trigger] perm[i] < inp.len()
    &&& forall|i: int| 0 <= i < perm.len() ==> #[trigger] out[i] == inp[perm[i]]
    &&& forall|i: int, j: int| 0 <= i < j < perm.len() ==> perm[i] != perm[j]
    &&& forall|i: int, j: int|
        0 <= i < j < perm.len() ==> !key_before(inp, keys, perm[j], perm[i])
    &&& forall|i: int, j: int|
        0 <= i < j < perm.len() && same_key(inp, keys, perm[i], perm[j]) ==> perm[i] < perm[j]
}

pub proof fn lemma_lex_irreflexive(a: Seq<char>)
    ensures
        !lex_less(a, a),
    decreases a.len(),
{
    if a.len() > 0 {
        lemma_lex_irreflexive(a.drop_first());
    }
}

pub proof fn lemma_lex_asymmetric(a: Seq<char>, b: Seq<char>)
    ensures
        !(lex_less(a, b) && lex_less(b, a)),
    decreases a.len(),
{
    if a.len() > 0 && b.len() > 0 && a[0] == b[0] {
        lemma_lex_asymmetric(a.drop_first(), b.drop_first());
    }
}

pub proof fn lemma_lex_transitive(a: Seq<char>, b: Seq<char>, c: Seq<char>)
    requires
        lex_less(a, b),
        lex_less(b, c),
    ensures
        lex_less(a, c),
    decreases a.len(),
{
    if a.len() > 0 && b.len() > 0 && c.len() > 0 && a[0] == b[0] && b[0] == c[0] {
        lemma_lex_transitive(a.drop_first(), b.drop_first(), c.drop_first());
    }
}

pub proof fn lemma_lex_total(a: Seq<char>, b: Seq<char>)
    ensures
        a != b ==> lex_less(a, b) || lex_less(b, a),
    decreases a.len(),
{
    if a.len() > 0 && b.len() > 0 && a[0] == b[0] {
        lemma_lex_total(a.drop_first(), b.drop_first());
        if a.drop_first() == b.drop_first() {
            assert(a =~= seq![a[0]] + a.drop_first());
            assert(b =~= seq![b[0]] + b.drop_first());
        }
    } else if a.len() == 0 && b.len() == 0 {
        assert(a =~= b);
    }
}

/// Where two texts first differ, at `k`, the smaller character decides; when
/// one runs out first, the shorter one (a proper prefix of the other) comes
/// first; equal texts are not ordered.
pub proof fn lemma_lex_first_difference(a: Seq<char>, b: Seq<char>, k: int)
    requires
        0 <= k <= a.len(),
        k <= b.len(),
        a.take(k) == b.take(k),
    ensures
        k < a.len() && k < b.len() && a[k] != b[k] ==> (lex_less(a, b) <==> a[k] < b[k]),
        k == a.len() ==> (lex_less(a, b) <==> k < b.len()),
        k == b.len() && k < a.len() ==> !lex_less(a, b),
    decreases k,
{
    if k > 0 {
        assert(a[0] == a.take(k)[0]);
        assert(b[0] == b.take(k)[0]);
        assert(a.drop_first().take(k - 1) =~= a.take(k).drop_first());
        assert(b.drop_first().take(k - 1) =~= b.take(k).drop_first());
        lemma_lex_first_difference(a.drop_first(), b.drop_first(), k - 1);
        if k < a.len() {
            assert(a.drop_first()[k - 1] == a[k]);
        }
        if k < b.len() {
            assert(b.drop_first()[k - 1] == b[k]);
        }
    }
}

/// Among listed plans with equal modification times, titles are in ascending
/// order once case-folded: at the first character where two folded titles
/// differ, the earlier plan's is the smaller, and a later plan's folded
/// title is never a proper prefix of an earlier one's.
pub proof fn lemma_equal_times_by_title(
    out: Seq<TodoFile>,
    inp: Seq<TodoFile>,
    perm: Seq<int>,
    i: int,
    j: int,
    k: int,
)
    requires
        is_stable_order(out, inp, folded_titles(inp), perm),
        0 <= i < j < out.len(),
        out[i].modified == out[j].modified,
        0 <= k <= lowercase(out[i].title@).len(),
        k <= lowercase(out[j].title@).len(),
        lowercase(out[i].title@).take(k) == lowercase(out[j].title@).take(k),
    ensures
        ({
            let a = lowercase(out[i].title@);
            let b = lowercase(out[j].title@);
            &&& k < a.len() && k < b.len() && a[k] != b[k] ==> a[k] < b[k]
            &&& !(k == b.len() && k < a.len())
        }),
{
    let keys = folded_titles(inp);
    let a = lowercase(out[i].title@);
    let b = lowercase(out[j].title@);
    assert(out[i] == inp[perm[i]]);
    assert(out[j] == inp[perm[j]]);
    assert(keys[perm[i]] == a);
    assert(keys[perm[j]] == b);
    assert(!key_before(inp, keys, perm[j], perm[i]));
    assert(!lex_less(b, a));
    lemma_lex_first_difference(b, a, k);
}

/// `listed_before` is a strict total order on keys.
pub proof fn lemma_listed_before_order(
    ma: Option<i128>,
    la: Seq<char>,
    mb: Option<i128>,
    lb: Seq<char>,
    mc: Option<i128>,
    lc: Seq<char>,
)
    ensures
        !listed_before(ma, la, ma, la),
        !(listed_before(ma, la, mb, lb) && listed_before(mb, lb, ma, la)),
        listed_before(ma, la, mb, lb) && listed_before(mb, lb, mc, lc) ==> listed_before(
            ma,
            la,
            mc,
            lc,
        ),
        (ma == mb && la == lb) || listed_before(ma, la, mb, lb) || listed_before(mb, lb, ma, la),
{
    lemma_lex_irreflexive(la);
    lemma_lex_asymmetric(la, lb);
    lemma_lex_total(la, lb);
    if lex_less(la, lb) && lex_less(lb, lc) {
        lemma_lex_transitive(la, lb, lc);
    }
}

fn is_later(a: Option<i128>, b: Option<i128>) -> (r: bool)
    ensures
        r == later(a, b),
{
    match (a, b) {
        (Some(x), Some(y)) => x > y,
        (Some(_), None) => true,
        _ => false,
    }
}

fn same_time(a: Option<i128>, b: Option<i128>) -> (r: bool)
    ensures
        r == (a == b),
{
    match (a, b) {
        (Some(x), Some(y)) => x == y,
        (None, None) => true,
        _ => false,
    }
}

fn lex_less_chars(a: &[char], b: &[char]) -> (r: bool)
    ensures
        r == lex_less(a@, b@),
{
    let mut i: usize = 0;
    assert(a@.skip(0) =~= a@);
    assert(b@.skip(0) =~= b@);
    while i < a.len() && i < b.len() && a[i] == b[i]
        invariant
            i <= a@.len(),
            i <= b@.len(),
            lex_less(a@, b@) == lex_less(a@.skip(i as int), b@.skip(i as int)),
        decreases a.len() - i,
    {
        assert(a@.skip(i as int).drop_first() =~= a@.skip(i + 1));
        assert(b@.skip(i as int).drop_first() =~= b@.skip(i + 1));
        i = i + 1;
    }
    if i == a.len() {
        i < b.len()
    } else if i == b.len() {
        false
    } else {
        a[i] < b[i]
    }
}

fn is_listed_before(
    ma: Option<i128>,
    la: &[char],
    mb: Option<i128>,
    lb: &[char],
) -> (r: bool)
    ensures
        r == listed_before(ma, la@, mb, lb@),
{
    is_later(ma, mb) || (same_time(ma, mb) && lex_less_chars(la, lb))
}

/// Orders `files` stably by (modification time, newest first; `lowered`
/// title, ascending), where `lowered[i]` is the folded title of `files[i]`.
pub fn order_todo_files(files: Vec<TodoFile>, lowered: Vec<String>) -> (r: Vec<TodoFile>)
    requires
        files@.len() == lowered@.len(),
    ensures
        exists|perm: Seq<int>|
            #[trigger] is_stable_order(r@, files@, string_views(lowered@), perm),
{
    let ghost inp = files@;
    let ghost keys = string_views(lowered@);
    let n = files.len();
    let mut rest_files = files;
    let mut rest_keys = lowered;
    let mut out: Vec<TodoFile> = Vec::new();
    let mut out_keys: Vec<Vec<char>> = Vec::new();
    let ghost mut perm: Seq<int> = seq![];
    let mut m: usize = 0;
    while m < n
        invariant
            n == inp.len(),
            keys.len() == inp.len(),
            m <= n,
            rest_files@ == inp.skip(m as int),
            string_views(rest_keys@) == keys.skip(m as int),
            rest_keys@.len() == n - m,
            out@.len() == m,
            out_keys@.len() == m,
            perm.len() == m,
            forall|i: int| 0 <= i < m ==> 0 <= #[trigger] perm[i] < m,
            forall|i: int| 0 <= i < m ==> #[trigger] out@[i] == inp[perm[i]],
            forall|i: int| 0 <= i < m ==> #[trigger] out_keys@[i]@ == keys[perm[i]],
            forall|i: int, j: int| 0 <= i < j < m ==> perm[i] != perm[j],
            forall|i: int, j: int| 0 <= i < j < m ==> !key_before(inp, keys, perm[j], perm[i]),
            forall|i: int, j: int|
                0 <= i < j < m && same_key(inp, keys, perm[i], perm[j]) ==> perm[i] < perm[j],
        decreases n - m,
    {
        let ghost rk = rest_keys@;
        let f = rest_files.remove(0);
        let k = rest_keys.remove(0);
        proof {
            assert(f == inp[m as int]);
            assert(k@ == keys[m as int]) by {
                assert(keys.skip(m as int)[0] == keys[m as int]);
                assert(string_views(rk)[0] == rk[0]@);
            }
            assert(rest_files@ =~= inp.skip(m + 1));
            assert(string_views(rest_keys@) =~= keys.skip(m + 1)) by {
                assert(rest_keys@ =~= rk.drop_first());
                assert forall|i: int| 0 <= i < rest_keys@.len() implies #[trigger] string_views(
                    rest_keys@,
                )[i] == keys.skip(m + 1)[i] by {
                    assert(string_views(rk)[i + 1] == rk[i + 1]@);
                    assert(keys.skip(m as int)[i + 1] == keys.skip(m + 1)[i]);
                }
            }
        }
        let kc = chars_of(k.as_str());
        // First position whose plan `f` goes before.
        let mut p: usize = 0;
        while p < out.len() && !is_listed_before(
            f.modified,
            kc.as_slice(),
            out[p].modified,
            out_keys[p].as_slice(),
        )
            invariant
                p <= out@.len(),
                out@.len() == m,
                out_keys@.len() == m,
                forall|i: int| 0 <= i < p ==> !key_before(inp, keys, m as int, #[trigger] perm[i]),
                forall|i: int| 0 <= i < m ==> #[trigger] out@[i] == inp[perm[i]],
                forall|i: int| 0 <= i < m ==> #[trigger] out_keys@[i]@ == keys[perm[i]],
                f == inp[m as int],
                kc@ == keys[m as int],
            decreases m - p,
        {
            proof {
                assert(out@[p as int] == inp[perm[p as int]]);
                assert(out_keys@[p as int]@ == keys[perm[p as int]]);
            }
            p = p + 1;
        }
        proof {
            if p < m {
                assert(out@[p as int] == inp[perm[p as int]]);
                assert(out_keys@[p as int]@ == keys[perm[p as int]]);
                assert(key_before(inp, keys, m as int, perm[p as int]));
            }
        }
        let ghost old_perm = perm;
        let ghost old_out = out@;
        let ghost old_out_keys = out_keys@;
        out.insert(p, f);
        out_keys.insert(p, kc);
        proof {
            perm = old_perm.insert(p as int, m as int);
            let mi = m as int;
            let pi = p as int;
            // Everything from `p` on comes after `f`.
            assert forall|j: int| pi <= j < mi implies key_before(
                inp,
                keys,
                mi,
                #[trigger] old_perm[j],
            ) by {
                if j > pi {
                    let a = old_perm[pi];
                    let b = old_perm[j];
                    assert(key_before(inp, keys, mi, a));
                    assert(!key_before(inp, keys, b, a));
                    lemma_listed_before_order(
                        inp[mi].modified,
                        keys[mi],
                        inp[a].modified,
                        keys[a],
                        inp[b].modified,
                        keys[b],
                    );
                    lemma_listed_before_order(
                        inp[a].modified,
                        keys[a],
                        inp[b].modified,
                        keys[b],
                        inp[mi].modified,
                        keys[mi],
                    );
                }
            }
            assert forall|i: int| 0 <= i < mi + 1 implies 0 <= #[trigger] perm[i] < mi + 1 by {
                if i < pi {
                    assert(perm[i] == old_perm[i]);
                } else if i > pi {
                    assert(perm[i] == old_perm[i - 1]);
                }
            }
            assert forall|i: int| 0 <= i < mi + 1 implies #[trigger] out@[i] == inp[perm[i]] by {
                if i < pi {
                    assert(out@[i] == old_out[i]);
                } else if i > pi {
                    assert(out@[i] == old_out[i - 1]);
                }
            }
            assert forall|i: int| 0 <= i < mi + 1 implies #[trigger] out_keys@[i]@ == keys[perm[i]] by {
                if i < pi {
                    assert(out_keys@[i] == old_out_keys[i]);
                } else if i > pi {
                    assert(out_keys@[i] == old_out_keys[i - 1]);
                }
            }
            assert forall|i: int, j: int| 0 <= i < j < mi + 1 implies perm[i] != perm[j] by {
                if i != pi && j != pi {
                    let oi = if i < pi { i } else { i - 1 };
                    let oj = if j < pi { j } else { j - 1 };
                    assert(perm[i] == old_perm[oi]);
                    assert(perm[j] == old_perm[oj]);
                } else if i == pi {
                    assert(perm[j] == old_perm[j - 1]);
                } else {
                    assert(perm[i] == old_perm[i]);
                }
            }
            assert forall|i: int, j: int| 0 <= i < j < mi + 1 implies !key_before(
                inp,
                keys,
                perm[j],
                perm[i],
            ) by {
                if i != pi && j != pi {
                    let oi = if i < pi { i } else { i - 1 };
                    let oj = if j < pi { j } else { j - 1 };
                    assert(perm[i] == old_perm[oi]);
                    assert(perm[j] == old_perm[oj]);
                } else if i == pi {
                    let b = old_perm[j - 1];
                    assert(perm[j] == b);
                    assert(key_before(inp, keys, mi, b));
                    lemma_listed_before_order(
                        inp[mi].modified,
                        keys[mi],
                        inp[b].modified,
                        keys[b],
                        inp[b].modified,
                        keys[b],
                    );
                } else {
                    assert(perm[i] == old_perm[i]);
                }
            }
            assert forall|i: int, j: int|
                0 <= i < j < mi + 1 && same_key(inp, keys, perm[i], perm[j]) implies perm[i]
                < perm[j] by {
                if i != pi && j != pi {
                    let oi = if i < pi { i } else { i - 1 };
                    let oj = if j < pi { j } else { j - 1 };
                    assert(perm[i] == old_perm[oi]);
                    assert(perm[j] == old_perm[oj]);
                } else if i == pi {
                    let b = old_perm[j - 1];
                    assert(perm[j] == b);
                    assert(key_before(inp, keys, mi, b));
                    lemma_listed_before_order(
                        inp[mi].modified,
                        keys[mi],
                        inp[b].modified,
                        keys[b],
                        inp[b].modified,
                        keys[b],
                    );
                } else {
                    assert(perm[i] == old_perm[i]);
                    assert(perm[i] < mi);
                }
            }
        }
        m = m + 1;
    }
    assert(is_stable_order(out@, inp, keys, perm));
    out
}

/// Lists plans newest first, then by case-folded title, keeping the input
/// order of plans that compare equal.
pub fn sort_todo_files(files: Vec<TodoFile>) -> (r: Vec<TodoFile>)
    ensures
        exists|perm: Seq<int>|
            #[trigger] is_stable_order(
                r@,
                files@,
                folded_titles(files@),
                perm,
            ),
{
    let mut lowered: Vec<String> = Vec::new();
    let mut i: usize = 0;
    while i < files.len()
        invariant
            i <= files@.len(),
            lowered@.len() == i,
            forall|j: int| 0 <= j < i ==> #[trigger] lowered@[j]@ == lowercase(files@[j].title@),
        decreases files.len() - i,
    {
        lowered.push(to_lowercase(files[i].title.as_str()));
        i = i + 1;
    }
    let ghost inp = files@;
    assert(string_views(lowered@) =~= folded_titles(inp));
    order_todo_files(files, lowered)
}

} // verus!
