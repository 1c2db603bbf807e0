//! The order of texts, and of files by age.

use vstd::prelude::*;
use vstd::relations;
use vstd::seq_lib;
use crate::scan;

verus! {

/// A text comes before another, or is the same: by the first character in which
/// they differ, a shorter text before a longer one that begins with it.
pub open spec fn text_le(a: Seq<char>, b: Seq<char>) -> bool
    decreases a.len(),
{
    if a.len() == 0 {
        true
    } else if b.len() == 0 {
        false
    } else if a[0] != b[0] {
        a[0] < b[0]
    } else {
        text_le(a.skip(1), b.skip(1))
    }
}

proof fn lemma_reflexive(a: Seq<char>)
    ensures
        text_le(a, a),
    decreases a.len(),
{
    if a.len() > 0 {
        lemma_reflexive(a.skip(1));
    }
}

proof fn lemma_antisymmetric(a: Seq<char>, b: Seq<char>)
    requires
        text_le(a, b),
        text_le(b, a),
    ensures
        a == b,
    decreases a.len(),
{
    if a.len() == 0 || b.len() == 0 {
        assert(a =~= b);
    } else {
        lemma_antisymmetric(a.skip(1), b.skip(1));
        assert(a =~= seq![a[0]] + a.skip(1));
        assert(b =~= seq![b[0]] + b.skip(1));
    }
}

proof fn lemma_transitive(a: Seq<char>, b: Seq<char>, c: Seq<char>)
    requires
        text_le(a, b),
        text_le(b, c),
    ensures
        text_le(a, c),
    decreases a.len(),
{
    if a.len() > 0 && b.len() > 0 && c.len() > 0 && a[0] == b[0] && b[0] == c[0] {
        lemma_transitive(a.skip(1), b.skip(1), c.skip(1));
    }
}

proof fn lemma_total(a: Seq<char>, b: Seq<char>)
    ensures
        text_le(a, b) || text_le(b, a),
    decreases a.len(),
{
    if a.len() > 0 && b.len() > 0 {
        lemma_total(a.skip(1), b.skip(1));
    }
}

/// Does one text come before another, or is it the same?
pub fn comes_first(a: &Vec<char>, b: &Vec<char>) -> (r: bool)
    ensures
        r == text_le(a@, b@),
{
    let mut i: usize = 0;
    assert(a@.skip(0) =~= a@);
    assert(b@.skip(0) =~= b@);
    while i < a.len() && i < b.len()
        invariant
            i <= a.len(),
            i <= b.len(),
            text_le(a@.skip(i as int), b@.skip(i as int)) == text_le(a@, b@),
        decreases a.len() - i,
    {
        let x: char = a[i];
        let y: char = b[i];
        assert(a@.skip(i as int)[0] == x);
        assert(b@.skip(i as int)[0] == y);
        if x != y {
            return x < y;
        }
        assert(a@.skip(i as int).skip(1) =~= a@.skip(i + 1));
        assert(b@.skip(i as int).skip(1) =~= b@.skip(i + 1));
        i = i + 1;
    }
    i == a.len()
}

/// A file: when it was changed, and its name.
pub struct FileAge {
    pub changed: u64,
    pub name: Vec<char>,
}

impl View for FileAge {
    type V = (u64, Seq<char>);

    open spec fn view(&self) -> (u64, Seq<char>) {
        (self.changed, self.name@)
    }
}

/// A file is older than another, or as old and before it by name.
pub open spec fn older(a: (u64, Seq<char>), b: (u64, Seq<char>)) -> bool {
    a.0 < b.0 || (a.0 == b.0 && text_le(a.1, b.1))
}

/// The order of files by age.
pub open spec fn by_age() -> spec_fn((u64, Seq<char>), (u64, Seq<char>)) -> bool {
    |a: (u64, Seq<char>), b: (u64, Seq<char>)| older(a, b)
}

/// The views of some files.
pub open spec fn ages(v: Seq<FileAge>) -> Seq<(u64, Seq<char>)> {
    v.map_values(|f: FileAge| f@)
}

proof fn lemma_by_age()
    ensures
        relations::total_ordering(by_age()),
{
    let le = by_age();
    assert forall|a: (u64, Seq<char>)| #[trigger] le(a, a) by {
        lemma_reflexive(a.1);
    }
    assert forall|a: (u64, Seq<char>), b: (u64, Seq<char>)|
        #[trigger] le(a, b) && #[trigger] le(b, a) implies a == b by {
        lemma_antisymmetric(a.1, b.1);
    }
    assert forall|a: (u64, Seq<char>), b: (u64, Seq<char>), c: (u64, Seq<char>)|
        #[trigger] le(a, b) && #[trigger] le(b, c) implies le(a, c) by {
        if a.0 == b.0 && b.0 == c.0 {
            lemma_transitive(a.1, b.1, c.1);
        }
    }
    assert forall|a: (u64, Seq<char>), b: (u64, Seq<char>)|
        #[trigger] le(a, b) || #[trigger] le(b, a) by {
        lemma_total(a.1, b.1);
    }
}

/// The files, the oldest first.
pub open spec fn oldest_first(files: Seq<(u64, Seq<char>)>) -> Seq<(u64, Seq<char>)> {
    files.sort_by(by_age())
}

/// Files in order of their age are the same files, and each is older than those
/// behind it.
pub proof fn lemma_oldest_first(files: Seq<(u64, Seq<char>)>)
    ensures
        oldest_first(files).len() == files.len(),
        oldest_first(files).to_multiset() == files.to_multiset(),
        forall|i: int, j: int|
            0 <= i < j < files.len() ==> older(
                #[trigger] oldest_first(files)[i],
                #[trigger] oldest_first(files)[j],
            ),
{
    lemma_by_age();
    let le = by_age();
    files.lemma_sort_by_ensures(le);
    let v = oldest_first(files);
    v.to_multiset_ensures();
    files.to_multiset_ensures();
    assert forall|i: int, j: int| 0 <= i < j < files.len() implies older(
        #[trigger] v[i],
        #[trigger] v[j],
    ) by {
        assert(le(v[i], v[j]));
    }
}

fn is_older(a: &FileAge, b: &FileAge) -> (r: bool)
    ensures
        r == older(a@, b@),
{
    a.changed < b.changed || (a.changed == b.changed && comes_first(&a.name, &b.name))
}

/// Sorts files, the oldest first.
pub fn sort_by_age(files: Vec<FileAge>) -> (r: Vec<FileAge>)
    ensures
        ages(r@) == oldest_first(ages(files@)),
        r.len() == files.len(),
{
    let ghost all = ages(files@);
    let mut todo = files;
    let mut out: Vec<FileAge> = Vec::new();
    proof {
        lemma_by_age();
        assert(all.take(0) =~= Seq::<(u64, Seq<char>)>::empty());
        assert(ages(out@) =~= all.skip(all.len() as int));
        assert(all.take(all.len() as int) =~= all);
    }
    while todo.len() > 0
        invariant
            relations::total_ordering(by_age()),
            todo.len() <= all.len(),
            ages(todo@) == all.take(todo.len() as int),
            out.len() + todo.len() == all.len(),
            ages(out@).to_multiset() == all.skip(todo.len() as int).to_multiset(),
            relations::sorted_by(ages(out@), by_age()),
        decreases todo.len(),
    {
        let ghost n = todo.len() as int;
        let ghost before = ages(out@);
        let ghost listed = todo@;
        let next = todo.pop();
        match next {
            None => {},
            Some(x) => {
                assert(x@ == all[n - 1]) by {
                    assert(ages(listed)[n - 1] == x@);
                }
                assert(ages(todo@) =~= all.take(n - 1)) by {
                    assert forall|i: int| 0 <= i < n - 1 implies #[trigger] ages(todo@)[i] == all[i] by {
                        assert(ages(listed)[i] == all[i]);
                    }
                }
                let mut p: usize = 0;
                while p < out.len() && is_older(&out[p], &x)
                    invariant
                        p <= out.len(),
                        forall|i: int| 0 <= i < p ==> older(#[trigger] out@[i]@, x@),
                    decreases out.len() - p,
                {
                    p = p + 1;
                }
                proof {
                    let le = by_age();
                    assert forall|i: int| 0 <= i < p implies le(#[trigger] before[i], x@) by {
                        assert(older(out@[i]@, x@));
                    }
                    lemma_insert_sorted(before, p as int, x@, le);
                    seq_lib::to_multiset_insert(before, p as int, x@);
                    let tail = all.skip(n);
                    assert(all.skip(n - 1) =~= tail.insert(0, x@));
                    seq_lib::to_multiset_insert(tail, 0, x@);
                }
                let ghost xv = x@;
                out.insert(p, x);
                assert(ages(out@) =~= before.insert(p as int, xv));
            },
        }
    }
    proof {
        assert(all.skip(0) =~= all);
        all.lemma_sort_by_ensures(by_age());
        seq_lib::lemma_sorted_unique(ages(out@), oldest_first(all), by_age());
    }
    out
}

/// Inserting a value behind all that come before it keeps a list sorted.
proof fn lemma_insert_sorted<T>(s: Seq<T>, p: int, x: T, le: spec_fn(T, T) -> bool)
    requires
        relations::total_ordering(le),
        relations::sorted_by(s, le),
        0 <= p <= s.len(),
        forall|i: int| 0 <= i < p ==> le(#[trigger] s[i], x),
        p < s.len() ==> !le(s[p], x),
    ensures
        relations::sorted_by(s.insert(p, x), le),
{
    let t = s.insert(p, x);
    if p < s.len() {
        assert(le(s[p], x) || le(x, s[p]));
    }
    assert forall|i: int, j: int| 0 <= i < j < t.len() implies #[trigger] le(t[i], t[j]) by {
        if i < p {
            assert(t[i] == s[i]);
            if j < p {
                assert(le(s[i], s[j]));
            } else if j > p {
                assert(t[j] == s[j - 1]);
                assert(le(s[i], s[j - 1]));
            }
        } else if i == p {
            assert(t[j] == s[j - 1]);
            if j - 1 > p {
                assert(le(x, s[p]) && le(s[p], s[j - 1]));
            }
        } else {
            assert(t[i] == s[i - 1] && t[j] == s[j - 1]);
            assert(le(s[i - 1], s[j - 1]));
        }
    }
}

/// The order of texts.
pub open spec fn by_text() -> spec_fn(Seq<char>, Seq<char>) -> bool {
    |a: Seq<char>, b: Seq<char>| text_le(a, b)
}

/// Some texts, in order.
pub open spec fn in_order(names: Seq<Seq<char>>) -> Seq<Seq<char>> {
    names.sort_by(by_text())
}

proof fn lemma_by_text()
    ensures
        relations::total_ordering(by_text()),
{
    let le = by_text();
    assert forall|a: Seq<char>| #[trigger] le(a, a) by {
        lemma_reflexive(a);
    }
    assert forall|a: Seq<char>, b: Seq<char>| #[trigger] le(a, b) && #[trigger] le(b, a) implies a
        == b by {
        lemma_antisymmetric(a, b);
    }
    assert forall|a: Seq<char>, b: Seq<char>, c: Seq<char>|
        #[trigger] le(a, b) && #[trigger] le(b, c) implies le(a, c) by {
        lemma_transitive(a, b, c);
    }
    assert forall|a: Seq<char>, b: Seq<char>| #[trigger] le(a, b) || #[trigger] le(b, a) by {
        lemma_total(a, b);
    }
}

/// Sorts texts.
pub fn sort_texts(names: Vec<Vec<char>>) -> (r: Vec<Vec<char>>)
    ensures
        scan::texts(r@) == in_order(scan::texts(names@)),
        r.len() == names.len(),
{
    let ghost all = scan::texts(names@);
    let mut todo = names;
    let mut out: Vec<Vec<char>> = Vec::new();
    proof {
        lemma_by_text();
        assert(scan::texts(out@) =~= all.skip(all.len() as int));
        assert(all.take(all.len() as int) =~= all);
    }
    while todo.len() > 0
        invariant
            relations::total_ordering(by_text()),
            todo.len() <= all.len(),
            scan::texts(todo@) == all.take(todo.len() as int),
            out.len() + todo.len() == all.len(),
            scan::texts(out@).to_multiset() == all.skip(todo.len() as int).to_multiset(),
            relations::sorted_by(scan::texts(out@), by_text()),
        decreases todo.len(),
    {
        let ghost n = todo.len() as int;
        let ghost before = scan::texts(out@);
        let ghost listed = todo@;
        let next = todo.pop();
        match next {
            None => {},
            Some(x) => {
                assert(x@ == all[n - 1]) by {
                    assert(scan::texts(listed)[n - 1] == x@);
                }
                assert(scan::texts(todo@) =~= all.take(n - 1)) by {
                    assert forall|i: int| 0 <= i < n - 1 implies #[trigger] scan::texts(todo@)[i]
                        == all[i] by {
                        assert(scan::texts(listed)[i] == all[i]);
                    }
                }
                let mut p: usize = 0;
                while p < out.len() && comes_first(&out[p], &x)
                    invariant
                        p <= out.len(),
                        forall|i: int| 0 <= i < p ==> text_le(#[trigger] out@[i]@, x@),
                    decreases out.len() - p,
                {
                    p = p + 1;
                }
                proof {
                    let le = by_text();
                    assert forall|i: int| 0 <= i < p implies le(#[trigger] before[i], x@) by {
                        assert(text_le(out@[i]@, x@));
                    }
                    lemma_insert_sorted(before, p as int, x@, le);
                    seq_lib::to_multiset_insert(before, p as int, x@);
                    let tail = all.skip(n);
                    assert(all.skip(n - 1) =~= tail.insert(0, x@));
                    seq_lib::to_multiset_insert(tail, 0, x@);
                }
                let ghost xv = x@;
                out.insert(p, x);
                assert(scan::texts(out@) =~= before.insert(p as int, xv));
            },
        }
    }
    proof {
        assert(all.skip(0) =~= all);
        all.lemma_sort_by_ensures(by_text());
        seq_lib::lemma_sorted_unique(scan::texts(out@), in_order(all), by_text());
    }
    out
}

} // verus!
