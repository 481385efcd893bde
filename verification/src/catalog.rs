use crate::parser::seq_views;
use crate::Migrations;
use vstd::prelude::*;
use vstd::string::StrSliceExecFns;
use vstd::string::StringExecFns;

verus! {

broadcast use vstd::seq_lib::group_to_multiset_ensures;

// ---------------------------------------------------------------------------
// Lexicographic order on file names
// ---------------------------------------------------------------------------

/// `a` comes before `b` (or equals it) in code-point lexicographic order,
/// the order in which file names are applied.
pub open spec fn lex_le(a: Seq<char>, b: Seq<char>) -> bool
    decreases a.len(),
{
    if a.len() == 0 {
        true
    } else if b.len() == 0 {
        false
    } else if a[0] == b[0] {
        lex_le(a.drop_first(), b.drop_first())
    } else {
        (a[0] as u32) < (b[0] as u32)
    }
}

pub proof fn lemma_lex_total(a: Seq<char>, b: Seq<char>)
    ensures
        lex_le(a, b) || lex_le(b, a),
    decreases a.len(),
{
    if a.len() > 0 && b.len() > 0 {
        if a[0] == b[0] {
            lemma_lex_total(a.drop_first(), b.drop_first());
        } else {
            vstd::utf8::char_u32_cast(a[0], a[0] as u32);
            vstd::utf8::char_u32_cast(b[0], b[0] as u32);
            assert((a[0] as u32) != (b[0] as u32));
        }
    }
}

proof fn lemma_lex_common_prefix(a: Seq<char>, b: Seq<char>, i: int)
    requires
        0 <= i <= a.len(),
        i <= b.len(),
        forall|j: int| 0 <= j < i ==> a[j] == b[j],
    ensures
        lex_le(a, b) == lex_le(a.skip(i), b.skip(i)),
    decreases i,
{
    if i > 0 {
        lemma_lex_common_prefix(a.drop_first(), b.drop_first(), i - 1);
        assert(a.drop_first().skip(i - 1) =~= a.skip(i));
        assert(b.drop_first().skip(i - 1) =~= b.skip(i));
    } else {
        assert(a.skip(0) =~= a);
        assert(b.skip(0) =~= b);
    }
}

/// Executable comparison that decides `lex_le` on two file names.
fn str_le(a: &String, b: &String) -> (r: bool)
    ensures
        r == lex_le(a@, b@),
{
    let na = a.as_str().unicode_len();
    let nb = b.as_str().unicode_len();
    let mut i: usize = 0;
    while i < na && i < nb
        invariant
            na == a@.len(),
            nb == b@.len(),
            i <= na,
            i <= nb,
            forall|j: int| 0 <= j < i ==> a@[j] == #[trigger] b@[j],
        decreases na - i,
    {
        let ca = a.as_str().get_char(i);
        let cb = b.as_str().get_char(i);
        if ca != cb {
            proof {
                lemma_lex_common_prefix(a@, b@, i as int);
                assert(a@.skip(i as int)[0] == ca);
                assert(b@.skip(i as int)[0] == cb);
            }
            return (ca as u32) < (cb as u32);
        }
        i = i + 1;
    }
    proof {
        lemma_lex_common_prefix(a@, b@, i as int);
        if i == na {
            assert(a@.skip(i as int).len() == 0);
        } else {
            assert(b@.skip(i as int).len() == 0);
            assert(a@.skip(i as int).len() > 0);
        }
    }
    na <= nb
}

// ---------------------------------------------------------------------------
// Suffix selection
// ---------------------------------------------------------------------------

/// `name` ends with `suffix`.
pub open spec fn has_suffix(name: Seq<char>, suffix: Seq<char>) -> bool {
    name.len() >= suffix.len() && name.subrange(
        name.len() - suffix.len(),
        name.len() as int,
    ) == suffix
}

/// The file-name suffix that marks a script of the given direction.
pub open spec fn direction_suffix(m: Migrations) -> Seq<char> {
    match m {
        Migrations::UP => "_up.sql"@,
        Migrations::DOWN => "_down.sql"@,
    }
}

fn ends_with_suffix(name: &String, suffix: &str) -> (r: bool)
    ensures
        r == has_suffix(name@, suffix@),
{
    let n = name.as_str().unicode_len();
    let m = suffix.unicode_len();
    if n < m {
        return false;
    }
    let mut k: usize = 0;
    while k < m
        invariant
            n == name@.len(),
            m == suffix@.len(),
            m <= n,
            k <= m,
            forall|j: int| 0 <= j < k ==> name@[n - m + j] == #[trigger] suffix@[j],
        decreases m - k,
    {
        if name.as_str().get_char(n - m + k) != suffix.get_char(k) {
            proof {
                assert(name@.subrange(n - m, n as int)[k as int] != suffix@[k as int]);
            }
            return false;
        }
        k = k + 1;
    }
    proof {
        assert(name@.subrange(n - m, n as int) =~= suffix@);
    }
    true
}

// ---------------------------------------------------------------------------
// Sorting
// ---------------------------------------------------------------------------

/// Each file name is followed only by names at or after it in
/// lexicographic order.
pub open spec fn sorted_asc(files: Seq<Seq<char>>) -> bool {
    forall|i: int| 0 <= i && i + 1 < files.len() ==> #[trigger] lex_le(files[i], files[i + 1])
}

proof fn lemma_insert_index<A>(s: Seq<A>, p: int, a: A, i: int)
    requires
        0 <= p <= s.len(),
        0 <= i <= s.len(),
    ensures
        s.insert(p, a).len() == s.len() + 1,
        i < p ==> s.insert(p, a)[i] == s[i],
        i == p ==> s.insert(p, a)[i] == a,
        i > p ==> s.insert(p, a)[i] == s[i - 1],
{
    s.insert_ensures(p, a);
}

proof fn lemma_insert_multiset(s: Seq<Seq<char>>, p: int, a: Seq<char>)
    requires
        0 <= p <= s.len(),
    ensures
        s.insert(p, a).to_multiset() == s.to_multiset().insert(a),
{
    let t = s.insert(p, a);
    assert(t.remove(p) =~= s);
    assert(t[p] == a);
    assert(s.to_multiset() =~= t.to_multiset().remove(a));
    assert(t.contains(a));
    assert(t.to_multiset().count(a) > 0);
    assert(s.to_multiset().insert(a) =~= t.to_multiset());
}

proof fn lemma_seq_views_insert(s: Seq<String>, p: int, x: String)
    requires
        0 <= p <= s.len(),
    ensures
        seq_views(s.insert(p, x)) == seq_views(s).insert(p, x@),
{
    s.insert_ensures(p, x);
    seq_views(s).insert_ensures(p, x@);
    assert forall|i: int| 0 <= i < seq_views(s.insert(p, x)).len() implies seq_views(
        s.insert(p, x),
    )[i] == seq_views(s).insert(p, x@)[i] by {
        lemma_insert_index(s, p, x, if i <= s.len() {
            i
        } else {
            0
        });
        lemma_insert_index(seq_views(s), p, x@, if i <= s.len() {
            i
        } else {
            0
        });
    }
    assert(seq_views(s.insert(p, x)) =~= seq_views(s).insert(p, x@));
}

/// Places one name at its position in an ascending list.
#[verifier::loop_isolation(false)]
fn insert_sorted(out: &mut Vec<String>, x: String)
    requires
        sorted_asc(seq_views(old(out)@)),
    ensures
        sorted_asc(seq_views(final(out)@)),
        seq_views(final(out)@).to_multiset() == seq_views(old(out)@).to_multiset().insert(x@),
{
    let ghost xv = x@;
    let ghost old_view = seq_views(out@);
    let mut p: usize = 0;
    while p < out.len() && str_le(&out[p], &x)
        invariant
            p <= out@.len(),
            forall|j: int| 0 <= j < p ==> lex_le(#[trigger] seq_views(out@)[j], xv),
        decreases out@.len() - p,
    {
        p = p + 1;
    }
    proof {
        if p < out.len() {
            lemma_lex_total(seq_views(out@)[p as int], xv);
            assert(lex_le(xv, seq_views(out@)[p as int]));
        }
    }
    let ghost old_vec = out@;
    let xc = x.clone();
    out.insert(p, xc);
    proof {
        assert(out@ == old_vec.insert(p as int, x));
        lemma_seq_views_insert(old_vec, p as int, x);
        let nv = old_view.insert(p as int, xv);
        old_view.insert_ensures(p as int, xv);
        assert(nv.len() == old_view.len() + 1);
        assert(seq_views(out@) == nv);
        lemma_insert_multiset(old_view, p as int, xv);
        assert forall|a: int| 0 <= a && a + 1 < nv.len() implies #[trigger] lex_le(
            nv[a],
            nv[a + 1],
        ) by {
            lemma_insert_index(old_view, p as int, xv, a);
            lemma_insert_index(old_view, p as int, xv, a + 1);
            if a + 1 < p {
                assert(nv[a] == old_view[a] && nv[a + 1] == old_view[a + 1]);
            } else if a + 1 == p {
                assert(nv[a] == old_view[a] && nv[a + 1] == xv);
            } else if a == p {
                assert(nv[a] == xv && nv[a + 1] == old_view[a]);
            } else {
                assert(nv[a] == old_view[a - 1] && nv[a + 1] == old_view[a]);
            }
        }
    }
}

/// Sorts file names ascending; the result holds the same names, with
/// multiplicity.
fn sort_file_names(input: Vec<String>) -> (r: Vec<String>)
    ensures
        sorted_asc(seq_views(r@)),
        seq_views(r@).to_multiset() == seq_views(input@).to_multiset(),
{
    let n = input.len();
    let mut out: Vec<String> = Vec::new();
    let mut idx: usize = 0;
    proof {
        assert(seq_views(out@) =~= Seq::<Seq<char>>::empty());
        assert(seq_views(input@).subrange(0, 0) =~= Seq::<Seq<char>>::empty());
        assert(seq_views(out@).to_multiset() =~= seq_views(input@).subrange(0, 0).to_multiset());
    }
    while idx < n
        invariant
            idx <= n,
            n == input@.len(),
            sorted_asc(seq_views(out@)),
            seq_views(out@).to_multiset() == seq_views(input@).subrange(0, idx as int).to_multiset(),
        decreases n - idx,
    {
        let x = input[idx].clone();
        let ghost xv = x@;
        insert_sorted(&mut out, x);
        proof {
            assert(seq_views(input@).subrange(0, idx + 1) =~= seq_views(input@).subrange(
                0,
                idx as int,
            ).push(seq_views(input@)[idx as int]));
            assert(seq_views(input@)[idx as int] == xv);
            assert(seq_views(out@).to_multiset() =~= seq_views(input@).subrange(
                0,
                idx + 1,
            ).to_multiset());
        }
        idx = idx + 1;
    }
    proof {
        assert(seq_views(input@).subrange(0, n as int) =~= seq_views(input@));
    }
    out
}

// ---------------------------------------------------------------------------
// Catalog listing
// ---------------------------------------------------------------------------

/// The catalog for one direction: of the names found in the migration
/// directory, those with the direction's suffix, sorted ascending by full
/// file name (which is chronological, given the date and timestamp
/// prefix).
#[verifier::loop_isolation(false)]
pub fn select_migration_files(names: &Vec<String>, migration_type: Migrations) -> (r: Vec<String>)
    ensures
        sorted_asc(seq_views(r@)),
        seq_views(r@).to_multiset() == seq_views(names@).filter(
            |s: Seq<char>| has_suffix(s, direction_suffix(migration_type)),
        ).to_multiset(),
{
    let suffix: &str = match migration_type {
        Migrations::UP => "_up.sql",
        Migrations::DOWN => "_down.sql",
    };
    proof {
        assert(suffix@ == direction_suffix(migration_type));
    }
    let ghost pred = |s: Seq<char>| has_suffix(s, direction_suffix(migration_type));
    let mut picked: Vec<String> = Vec::new();
    let n = names.len();
    let mut i: usize = 0;
    proof {
        reveal(Seq::filter);
        assert(seq_views(picked@) =~= seq_views(names@).subrange(0, 0).filter(pred));
    }
    while i < n
        invariant
            i <= n,
            seq_views(picked@) == seq_views(names@).subrange(0, i as int).filter(pred),
        decreases n - i,
    {
        let ghost prev = seq_views(picked@);
        if ends_with_suffix(&names[i], suffix) {
            picked.push(names[i].clone());
            proof {
                assert(seq_views(picked@) =~= prev.push(seq_views(names@)[i as int]));
            }
        }
        proof {
            reveal(Seq::filter);
            let pfx = seq_views(names@).subrange(0, i + 1);
            assert(pfx.drop_last() =~= seq_views(names@).subrange(0, i as int));
            assert(pfx.last() == seq_views(names@)[i as int]);
            assert(seq_views(names@)[i as int] == names@[i as int]@);
            assert(seq_views(picked@) =~= pfx.filter(pred));
        }
        i = i + 1;
    }
    proof {
        assert(seq_views(names@).subrange(0, n as int) =~= seq_views(names@));
    }
    sort_file_names(picked)
}

/// The same names, newest first: the iteration order of a rollback run.
pub fn reverse_files(files: &Vec<String>) -> (r: Vec<String>)
    ensures
        seq_views(r@) == seq_views(files@).reverse(),
{
    let n = files.len();
    let mut out: Vec<String> = Vec::new();
    let mut k: usize = 0;
    while k < n
        invariant
            k <= n,
            n == files@.len(),
            out@.len() == k,
            forall|j: int| 0 <= j < k ==> (#[trigger] seq_views(out@)[j]) == seq_views(files@)[n - 1 - j],
        decreases n - k,
    {
        let ghost prev = seq_views(out@);
        out.push(files[n - 1 - k].clone());
        proof {
            assert(seq_views(out@) =~= prev.push(files@[n - 1 - k as int]@));
        }
        k = k + 1;
    }
    proof {
        assert(seq_views(out@) =~= seq_views(files@).reverse());
    }
    out
}

// ---------------------------------------------------------------------------
// New migration files
// ---------------------------------------------------------------------------

/// The file names of a freshly created batch: the up and down scripts
/// share the `{date}_{timestamp}` stem that makes them sort, and pair,
/// together.
pub fn migration_file_names(date: &str, epoch: &str) -> (r: (String, String))
    ensures
        r.0@ == date@ + "_"@ + epoch@ + "_up.sql"@,
        r.1@ == date@ + "_"@ + epoch@ + "_down.sql"@,
{
    let mut up = date.to_owned();
    up.append("_");
    up.append(epoch);
    up.append("_up.sql");
    let mut down = date.to_owned();
    down.append("_");
    down.append(epoch);
    down.append("_down.sql");
    (up, down)
}

} // verus!
