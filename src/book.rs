use vstd::prelude::*;
use vstd::string::*;

use crate::date::date_le;
use crate::record::{csv_line, record_matches, Record};
use crate::text::{lemma_lex_le_total, lemma_lex_le_trans, lex_le, text_le};

verus! {

/// The ordered collection of records.
pub struct Book {
    records: Vec<Record>,
}

/// `a` comes no later than `b` when ordering by sort key `k`: 1 id, 2 name,
/// 3 date, 4 address, 5 note; text compares lexicographically.
pub open spec fn key_le(k: int, a: Record, b: Record) -> bool {
    if k == 1 {
        a.id <= b.id
    } else if k == 2 {
        lex_le(a.name@, b.name@)
    } else if k == 3 {
        date_le(a.date, b.date)
    } else if k == 4 {
        lex_le(a.addr@, b.addr@)
    } else {
        lex_le(a.note@, b.note@)
    }
}

/// `x` placed after the last element of the ordered `t` that does not come after it.
pub open spec fn insert_sorted(t: Seq<Record>, x: Record, k: int) -> Seq<Record>
    decreases t.len(),
{
    if t.len() == 0 {
        seq![x]
    } else if key_le(k, t.last(), x) {
        t.push(x)
    } else {
        insert_sorted(t.drop_last(), x, k).push(t.last())
    }
}

/// The stable sort of `s` by key `k`: records with equal keys keep their order.
pub open spec fn sorted_by(s: Seq<Record>, k: int) -> Seq<Record>
    decreases s.len(),
{
    if s.len() == 0 {
        s
    } else {
        insert_sorted(sorted_by(s.drop_last(), k), s.last(), k)
    }
}

pub open spec fn is_sorted(t: Seq<Record>, k: int) -> bool {
    forall|i: int, j: int| 0 <= i < j < t.len() ==> key_le(k, #[trigger] t[i], #[trigger] t[j])
}

/// The records shown at the positions `ix`, in that order.
pub open spec fn shown(s: Seq<Record>, ix: Seq<usize>) -> Seq<Record> {
    ix.map_values(|i: usize| s[i as int])
}

/// The positions `lo..hi` that `%P n` shows in a book of `len` records: the first
/// `n` for `n > 0`, the last `-n` for `n < 0`, all of them for `n == 0`.
pub open spec fn print_range(len: int, n: int) -> (int, int) {
    if n > 0 {
        (0, if n < len { n } else { len })
    } else if n < 0 {
        (len - (if -n < len { -n } else { len }), len)
    } else {
        (0, len)
    }
}

/// The positions `lo, lo + 1, ..., hi - 1`.
pub open spec fn span(lo: int, hi: int) -> Seq<usize> {
    Seq::new((hi - lo) as nat, |i: int| (lo + i) as usize)
}

/// The records that `word` matches, in book order.
pub open spec fn matching(s: Seq<Record>, w: Seq<char>) -> Seq<Record> {
    s.filter(|r: Record| record_matches(r, w))
}

/// The file text of a book: each record's line followed by a newline.
pub open spec fn book_csv(s: Seq<Record>) -> Seq<char>
    decreases s.len(),
{
    if s.len() == 0 {
        Seq::empty()
    } else {
        book_csv(s.drop_last()) + csv_line(s.last()) + seq!['\n']
    }
}

pub open spec fn all_wf(s: Seq<Record>) -> bool {
    forall|i: int| 0 <= i < s.len() ==> (#[trigger] s[i]).wf()
}

pub proof fn lemma_key_le_total(k: int, a: Record, b: Record)
    ensures
        key_le(k, a, b) || key_le(k, b, a),
{
    lemma_lex_le_total(a.name@, b.name@);
    lemma_lex_le_total(a.addr@, b.addr@);
    lemma_lex_le_total(a.note@, b.note@);
}

pub proof fn lemma_key_le_trans(k: int, a: Record, b: Record, c: Record)
    requires
        key_le(k, a, b),
        key_le(k, b, c),
    ensures
        key_le(k, a, c),
{
    if k == 2 {
        lemma_lex_le_trans(a.name@, b.name@, c.name@);
    } else if k == 4 {
        lemma_lex_le_trans(a.addr@, b.addr@, c.addr@);
    } else if k != 1 && k != 3 {
        lemma_lex_le_trans(a.note@, b.note@, c.note@);
    }
}

/// Everything in `insert_sorted(t, x, k)` comes no later than `y` if all of `t` and `x` do.
proof fn lemma_insert_bounded(t: Seq<Record>, x: Record, k: int, y: Record)
    requires
        forall|i: int| 0 <= i < t.len() ==> key_le(k, #[trigger] t[i], y),
        key_le(k, x, y),
    ensures
        forall|i: int|
            0 <= i < insert_sorted(t, x, k).len() ==> key_le(
                k,
                #[trigger] insert_sorted(t, x, k)[i],
                y,
            ),
    decreases t.len(),
{
    if t.len() > 0 && !key_le(k, t.last(), x) {
        let d = t.drop_last();
        assert forall|i: int| 0 <= i < d.len() implies key_le(k, #[trigger] d[i], y) by {
            assert(d[i] == t[i]);
        }
        lemma_insert_bounded(d, x, k, y);
        let u = insert_sorted(d, x, k);
        assert forall|i: int| 0 <= i < u.push(t.last()).len() implies key_le(
            k,
            #[trigger] u.push(t.last())[i],
            y,
        ) by {
            if i < u.len() {
                assert(u.push(t.last())[i] == u[i]);
            } else {
                assert(t.last() == t[t.len() - 1]);
            }
        }
    } else if t.len() > 0 {
        assert forall|i: int| 0 <= i < t.push(x).len() implies key_le(
            k,
            #[trigger] t.push(x)[i],
            y,
        ) by {
            if i < t.len() {
                assert(t.push(x)[i] == t[i]);
            }
        }
    }
}

/// Inserting adds `x` and keeps everything else.
proof fn lemma_insert_sorted_multiset(t: Seq<Record>, x: Record, k: int)
    ensures
        insert_sorted(t, x, k).to_multiset() == t.to_multiset().insert(x),
    decreases t.len(),
{
    broadcast use vstd::seq_lib::group_to_multiset_ensures;

    if t.len() > 0 && !key_le(k, t.last(), x) {
        let d = t.drop_last();
        lemma_insert_sorted_multiset(d, x, k);
        assert(d.push(t.last()) =~= t);
        assert(insert_sorted(t, x, k).to_multiset() =~= t.to_multiset().insert(x));
    }
}

/// Inserting into an ordered sequence keeps it ordered.
proof fn lemma_insert_keeps_sorted(t: Seq<Record>, x: Record, k: int)
    requires
        is_sorted(t, k),
    ensures
        is_sorted(insert_sorted(t, x, k), k),
    decreases t.len(),
{
    if t.len() == 0 {
    } else if key_le(k, t.last(), x) {
        let u = t.push(x);
        assert forall|i: int, j: int| 0 <= i < j < u.len() implies key_le(
            k,
            #[trigger] u[i],
            #[trigger] u[j],
        ) by {
            if j < t.len() {
                assert(u[i] == t[i] && u[j] == t[j]);
            } else {
                assert(u[i] == t[i]);
                if i < t.len() - 1 {
                    assert(key_le(k, t[i], t[t.len() - 1]));
                    lemma_key_le_trans(k, t[i], t.last(), x);
                }
            }
        }
    } else {
        let d = t.drop_last();
        let last = t.last();
        assert(is_sorted(d, k)) by {
            assert forall|i: int, j: int| 0 <= i < j < d.len() implies key_le(
                k,
                #[trigger] d[i],
                #[trigger] d[j],
            ) by {
                assert(d[i] == t[i] && d[j] == t[j]);
            }
        }
        lemma_insert_keeps_sorted(d, x, k);
        lemma_key_le_total(k, last, x);
        assert forall|i: int| 0 <= i < d.len() implies key_le(k, #[trigger] d[i], last) by {
            assert(d[i] == t[i]);
            assert(last == t[t.len() - 1]);
        }
        lemma_insert_bounded(d, x, k, last);
        let v = insert_sorted(d, x, k);
        let u = v.push(last);
        assert forall|i: int, j: int| 0 <= i < j < u.len() implies key_le(
            k,
            #[trigger] u[i],
            #[trigger] u[j],
        ) by {
            assert(u[i] == v[i]);
            if j < v.len() {
                assert(u[j] == v[j]);
            }
        }
    }
}

/// The stable sort rearranges the records and neither adds nor drops any.
pub proof fn lemma_sorted_by_multiset(s: Seq<Record>, k: int)
    ensures
        sorted_by(s, k).to_multiset() == s.to_multiset(),
    decreases s.len(),
{
    broadcast use vstd::seq_lib::group_to_multiset_ensures;

    if s.len() > 0 {
        lemma_sorted_by_multiset(s.drop_last(), k);
        lemma_insert_sorted_multiset(sorted_by(s.drop_last(), k), s.last(), k);
        assert(s.drop_last().push(s.last()) =~= s);
    }
}

/// The stable sort yields an ordered sequence.
pub proof fn lemma_sorted_by_is_sorted(s: Seq<Record>, k: int)
    ensures
        is_sorted(sorted_by(s, k), k),
    decreases s.len(),
{
    if s.len() > 0 {
        lemma_sorted_by_is_sorted(s.drop_last(), k);
        lemma_insert_keeps_sorted(sorted_by(s.drop_last(), k), s.last(), k);
    }
}

/// Sorting an ordered sequence leaves it as it is.
pub proof fn lemma_sorted_by_ordered(s: Seq<Record>, k: int)
    requires
        is_sorted(s, k),
    ensures
        sorted_by(s, k) == s,
    decreases s.len(),
{
    if s.len() > 0 {
        let d = s.drop_last();
        assert(is_sorted(d, k)) by {
            assert forall|i: int, j: int| 0 <= i < j < d.len() implies key_le(
                k,
                #[trigger] d[i],
                #[trigger] d[j],
            ) by {
                assert(d[i] == s[i] && d[j] == s[j]);
            }
        }
        lemma_sorted_by_ordered(d, k);
        if d.len() > 0 {
            assert(key_le(k, s[d.len() - 1], s[s.len() - 1]));
            assert(d.last() == s[d.len() - 1]);
        }
        assert(d.push(s.last()) =~= s);
    }
}

/// Sorting twice by the same key gives the order that sorting once gave.
pub proof fn lemma_sort_idempotent(s: Seq<Record>, k: int)
    ensures
        sorted_by(sorted_by(s, k), k) == sorted_by(s, k),
{
    lemma_sorted_by_is_sorted(s, k);
    lemma_sorted_by_ordered(sorted_by(s, k), k);
}

/// Every element of `insert_sorted(t, x, k)` is well formed if those of `t` and `x` are.
proof fn lemma_insert_all_wf(t: Seq<Record>, x: Record, k: int)
    requires
        all_wf(t),
        x.wf(),
    ensures
        all_wf(insert_sorted(t, x, k)),
    decreases t.len(),
{
    if t.len() > 0 {
        let d = t.drop_last();
        assert(all_wf(d)) by {
            assert forall|i: int| 0 <= i < d.len() implies (#[trigger] d[i]).wf() by {
                assert(d[i] == t[i]);
            }
        }
        lemma_insert_all_wf(d, x, k);
        assert(t.last() == t[t.len() - 1]);
        if key_le(k, t.last(), x) {
            assert forall|i: int| 0 <= i < t.push(x).len() implies (
            #[trigger] t.push(x)[i]).wf() by {
                if i < t.len() {
                    assert(t.push(x)[i] == t[i]);
                }
            }
        } else {
            let u = insert_sorted(d, x, k);
            assert forall|i: int| 0 <= i < u.push(t.last()).len() implies (#[trigger] u.push(
                t.last(),
            )[i]).wf() by {
                if i < u.len() {
                    assert(u.push(t.last())[i] == u[i]);
                }
            }
        }
    }
}

/// `a` comes no later than `b` by sort key `k`.
fn key_le_exec(k: u32, a: &Record, b: &Record) -> (r: bool)
    ensures
        r == key_le(k as int, *a, *b),
{
    if k == 1 {
        a.id <= b.id
    } else if k == 2 {
        text_le(a.name.as_str(), b.name.as_str())
    } else if k == 3 {
        a.date.le(&b.date)
    } else if k == 4 {
        text_le(a.addr.as_str(), b.addr.as_str())
    } else {
        text_le(a.note.as_str(), b.note.as_str())
    }
}

/// Inserts `x` into `out` where `insert_sorted` puts it.
fn insert_in_order(out: &mut Vec<Record>, x: Record, k: u32)
    ensures
        final(out)@ == insert_sorted(old(out)@, x, k as int),
{
    let ghost t = out@;
    let mut j: usize = out.len();
    proof {
        assert(t.take(j as int) =~= t);
        assert(t.skip(j as int) =~= Seq::<Record>::empty());
        assert(insert_sorted(t, x, k as int) =~= insert_sorted(t.take(j as int), x, k as int)
            + t.skip(j as int));
    }
    while j > 0 && !key_le_exec(k, &out[j - 1], &x)
        invariant
            out@ == t,
            j <= t.len(),
            insert_sorted(t, x, k as int) == insert_sorted(t.take(j as int), x, k as int) + t.skip(
                j as int,
            ),
        decreases j,
    {
        proof {
            let tj = t.take(j as int);
            assert(tj.last() == t[j - 1]);
            assert(tj.drop_last() =~= t.take(j - 1));
            assert(insert_sorted(tj, x, k as int) == insert_sorted(t.take(j - 1), x, k as int).push(
                t[j - 1],
            ));
            assert(insert_sorted(t.take(j - 1), x, k as int).push(t[j - 1]) + t.skip(j as int)
                =~= insert_sorted(t.take(j - 1), x, k as int) + t.skip(j - 1));
        }
        j = j - 1;
    }
    proof {
        let tj = t.take(j as int);
        if j > 0 {
            assert(tj.last() == t[j - 1]);
        }
        assert(insert_sorted(tj, x, k as int) =~= tj.push(x));
        assert(t.insert(j as int, x) =~= tj.push(x) + t.skip(j as int));
    }
    out.insert(j, x);
}

/// The book's file text, built line by line.
fn csv_text_of(s: &Vec<Record>) -> (r: String)
    requires
        all_wf(s@),
    ensures
        r@ == book_csv(s@),
{
    let mut out = String::new();
    let mut i: usize = 0;
    proof {
        assert(s@.take(0) =~= Seq::<Record>::empty());
    }
    while i < s.len()
        invariant
            i <= s.len(),
            all_wf(s@),
            out@ == book_csv(s@.take(i as int)),
        decreases s.len() - i,
    {
        let line = s[i].to_csv();
        out.append(line.as_str());
        out.append("\n");
        proof {
            reveal_strlit("\n");
            let ti = s@.take(i + 1);
            assert(ti.drop_last() =~= s@.take(i as int));
            assert(ti.last() == s@[i as int]);
        }
        i = i + 1;
    }
    proof {
        assert(s@.take(s.len() as int) =~= s@);
    }
    out
}

impl View for Book {
    type V = Seq<Record>;

    closed spec fn view(&self) -> Seq<Record> {
        self.records@
    }
}

impl Book {
    /// Every record holds a real calendar date.
    pub open spec fn wf(&self) -> bool {
        all_wf(self@)
    }

    /// An empty book.
    pub fn new() -> (r: Book)
        ensures
            r@ == Seq::<Record>::empty(),
            r.wf(),
    {
        Book { records: Vec::new() }
    }

    /// The number of records.
    pub fn len(&self) -> (r: usize)
        ensures
            r == self@.len(),
    {
        self.records.len()
    }

    /// The records in their current order.
    pub fn records(&self) -> (r: &Vec<Record>)
        ensures
            r@ == self@,
    {
        &self.records
    }

    /// Appends a record at the end.
    pub fn push(&mut self, rec: Record)
        requires
            old(self).wf(),
            rec.wf(),
        ensures
            final(self)@ == old(self)@.push(rec),
            final(self).wf(),
    {
        self.records.push(rec);
        proof {
            assert forall|i: int| 0 <= i < self@.len() implies (#[trigger] self@[i]).wf() by {
                if i < old(self)@.len() {
                    assert(self@[i] == old(self)@[i]);
                }
            }
        }
    }

    /// Reorders the records by key `k` (1 id, 2 name, 3 date, 4 address, 5 note),
    /// stably, so records with equal keys keep their relative order.
    pub fn sort_by_key(&mut self, k: u32)
        requires
            old(self).wf(),
            1 <= k <= 5,
        ensures
            final(self)@ == sorted_by(old(self)@, k as int),
            is_sorted(final(self)@, k as int),
            final(self)@.to_multiset() == old(self)@.to_multiset(),
            final(self).wf(),
    {
        let ghost s = self.records@;
        let n0 = self.records.len();
        let mut out: Vec<Record> = Vec::new();
        let mut i: usize = 0;
        proof {
            assert(s.take(0) =~= Seq::<Record>::empty());
            assert(s.skip(0) =~= s);
        }
        while self.records.len() > 0
            invariant
                i <= s.len(),
                i + self.records@.len() == s.len(),
                s.len() == n0,
                self.records@ == s.skip(i as int),
                out@ == sorted_by(s.take(i as int), k as int),
                all_wf(s),
                all_wf(out@),
            decreases self.records.len(),
        {
            let x = self.records.remove(0);
            proof {
                assert(x == s[i as int]);
                let ti = s.take(i + 1);
                assert(ti.drop_last() =~= s.take(i as int));
                assert(ti.last() == s[i as int]);
                assert(self.records@ =~= s.skip(i + 1));
                lemma_insert_all_wf(out@, x, k as int);
            }
            insert_in_order(&mut out, x, k);
            i = i + 1;
        }
        proof {
            assert(s.take(i as int) =~= s);
            lemma_sorted_by_is_sorted(s, k as int);
            lemma_sorted_by_multiset(s, k as int);
        }
        self.records = out;
    }

    /// The positions that `%P n` shows: a prefix for `n > 0`, a suffix in its
    /// own order for `n < 0`, every record for `n == 0`.
    pub fn print_indices(&self, n: i32) -> (r: Vec<usize>)
        ensures
            r@ == span(print_range(self@.len() as int, n as int).0, print_range(self@.len() as int, n as int).1),
            shown(self@, r@) == self@.subrange(
                print_range(self@.len() as int, n as int).0,
                print_range(self@.len() as int, n as int).1,
            ),
    {
        let len = self.records.len();
        let (lo, hi): (usize, usize) = if n > 0 {
            let m = n as usize;
            (0, if m < len { m } else { len })
        } else if n < 0 {
            let m: u64 = (-(n as i64)) as u64;
            (if m < len as u64 { len - (m as usize) } else { 0 }, len)
        } else {
            (0, len)
        };
        let ghost range = print_range(len as int, n as int);
        assert(lo == range.0 && hi == range.1);
        let mut out: Vec<usize> = Vec::new();
        let mut i: usize = lo;
        while i < hi
            invariant
                lo <= i <= hi <= len,
                out@ == span(lo as int, i as int),
            decreases hi - i,
        {
            out.push(i);
            proof {
                assert(out@ =~= span(lo as int, i + 1));
            }
            i = i + 1;
        }
        proof {
            assert(shown(self@, out@) =~= self@.subrange(lo as int, hi as int));
        }
        out
    }

    /// The positions of the records that `word` matches, in book order.
    pub fn find_indices(&self, word: &str) -> (r: Vec<usize>)
        requires
            self.wf(),
        ensures
            forall|j: int| 0 <= j < r@.len() ==> r@[j] < self@.len(),
            shown(self@, r@) == matching(self@, word@),
    {
        let mut out: Vec<usize> = Vec::new();
        let mut i: usize = 0;
        proof {
            reveal(Seq::filter);
            assert(self@.take(0) =~= Seq::<Record>::empty());
            assert(shown(self@, out@) =~= Seq::<Record>::empty());
        }
        while i < self.records.len()
            invariant
                i <= self@.len(),
                self.wf(),
                forall|j: int| 0 <= j < out@.len() ==> out@[j] < i,
                shown(self@, out@) == matching(self@.take(i as int), word@),
            decreases self@.len() - i,
        {
            let ghost before = out@;
            let hit = self.records[i].is_match(word);
            if hit {
                out.push(i);
            }
            proof {
                let ti = self@.take(i + 1);
                assert(ti.drop_last() =~= self@.take(i as int));
                assert(ti.last() == self@[i as int]);
                reveal(Seq::filter);
                assert(record_matches(ti.last(), word@) == hit);
                assert(matching(ti, word@) == if record_matches(ti.last(), word@) {
                    matching(ti.drop_last(), word@).push(ti.last())
                } else {
                    matching(ti.drop_last(), word@)
                });
                if hit {
                    assert(shown(self@, out@) =~= shown(self@, before).push(self@[i as int]));
                } else {
                    assert(shown(self@, out@) =~= shown(self@, before));
                }
            }
            i = i + 1;
        }
        proof {
            assert(self@.take(i as int) =~= self@);
        }
        out
    }

    /// The file text: every record as a comma-separated line ending in a newline,
    /// in the current order.
    pub fn csv_text(&self) -> (r: String)
        requires
            self.wf(),
        ensures
            r@ == book_csv(self@),
    {
        csv_text_of(&self.records)
    }
}

} // verus!
