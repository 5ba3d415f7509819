use vstd::prelude::*;
use vstd::string::*;

use crate::date::{date_text, pad4, parsed_date, year_text, Date};
use crate::error::BookError;
use crate::text::{
    dec, digit_char, find_char, lemma_dec, lemma_find_char_at, lemma_u32_of_dec, parse_u32,
    u32_of, u32_text,
};

verus! {

/// One entry of the book.
#[derive(Clone, Debug, PartialEq, Eq)]
pub struct Record {
    pub id: u32,
    pub name: String,
    pub date: Date,
    pub addr: String,
    pub note: String,
}

/// The texts of a sequence of strings.
pub open spec fn views(v: Seq<String>) -> Seq<Seq<char>> {
    v.map_values(|s: String| s@)
}

pub open spec fn no_comma(s: Seq<char>) -> bool {
    forall|i: int| 0 <= i < s.len() ==> s[i] != ','
}

/// The fields of a data line: it is cut at its first `k - 1` commas, and the
/// last field keeps whatever follows, commas included.
pub open spec fn split_fields(s: Seq<char>, k: nat) -> Seq<Seq<char>>
    decreases k,
{
    if k <= 1 {
        seq![s]
    } else {
        let p = find_char(s, ',');
        if p >= s.len() {
            seq![s]
        } else {
            seq![s.take(p)] + split_fields(s.skip(p + 1), (k - 1) as nat)
        }
    }
}

/// Why the fields `f` describe no record, checked in field order; `None` if they do.
pub open spec fn fields_error(f: Seq<Seq<char>>) -> Option<BookError> {
    if f.len() != 5 {
        Some(BookError::MalformedRecord)
    } else if u32_of(f[0]) is None {
        Some(BookError::BadInteger)
    } else if parsed_date(f[2]) is None {
        Some(BookError::BadDate)
    } else {
        None
    }
}

/// `r` is the record that the five fields `f` describe.
pub open spec fn record_of(f: Seq<Seq<char>>, r: Record) -> bool {
    &&& f.len() == 5
    &&& u32_of(f[0]) == Some(r.id)
    &&& r.name@ == f[1]
    &&& parsed_date(f[2]) == Some((r.date.year as int, r.date.month as int, r.date.day as int))
    &&& r.date.wf()
    &&& r.addr@ == f[3]
    &&& r.note@ == f[4]
}

/// Two records hold the same values in every field.
pub open spec fn same_record(a: Record, b: Record) -> bool {
    &&& a.id == b.id
    &&& a.name@ == b.name@
    &&& a.date == b.date
    &&& a.addr@ == b.addr@
    &&& a.note@ == b.note@
}

/// The record as one comma-separated line: id, name, date, address, note.
pub open spec fn csv_line(r: Record) -> Seq<char> {
    dec(r.id as nat) + seq![','] + r.name@ + seq![','] + date_text(r.date) + seq![','] + r.addr@
        + seq![','] + r.note@
}

/// The bordered block that shows a record, one labelled field per line.
pub open spec fn display_text(r: Record) -> Seq<char> {
    "-----\nID: "@ + dec(r.id as nat) + "\nName: "@ + r.name@ + "\nDate: "@ + date_text(r.date)
        + "\nAddr: "@ + r.addr@ + "\nNote: "@ + r.note@ + "\n-----"@
}

/// `w` equals one of the record's fields written out as text.
pub open spec fn record_matches(r: Record, w: Seq<char>) -> bool {
    ||| w == dec(r.id as nat)
    ||| w == r.name@
    ||| w == date_text(r.date)
    ||| w == r.addr@
    ||| w == r.note@
}

proof fn lemma_digit_char_no_comma(d: int)
    ensures
        digit_char(d) != ',',
{
}

proof fn lemma_date_text_no_comma(d: Date)
    ensures
        no_comma(date_text(d)),
{
    let y = d.year as int;
    let n: nat = if y < 0 { (-y) as nat } else { y as nat };
    lemma_dec(n);
    assert(no_comma(pad4(n))) by {
        let ds = dec(n);
        if ds.len() < 4 {
            let z = Seq::new((4 - ds.len()) as nat, |i: int| '0');
            assert forall|i: int| 0 <= i < pad4(n).len() implies pad4(n)[i] != ',' by {
                if i >= z.len() {
                    assert(pad4(n)[i] == ds[i - z.len()]);
                }
            }
        }
    }
    assert(no_comma(year_text(y))) by {
        if !(0 <= y <= 9999) {
            let sign = if y < 0 { '-' } else { '+' };
            assert(year_text(y) == seq![sign] + pad4(n));
            assert forall|i: int| 0 <= i < year_text(y).len() implies year_text(y)[i] != ',' by {
                if i > 0 {
                    assert(year_text(y)[i] == pad4(n)[i - 1]);
                }
            }
        }
    }
    lemma_digit_char_no_comma(d.month as int / 10);
    lemma_digit_char_no_comma(d.month as int % 10);
    lemma_digit_char_no_comma(d.day as int / 10);
    lemma_digit_char_no_comma(d.day as int % 10);
    let t = date_text(d);
    let yl = year_text(y).len();
    assert forall|i: int| 0 <= i < t.len() implies t[i] != ',' by {
        if i < yl {
            assert(t[i] == year_text(y)[i]);
        }
    }
}

/// Cutting `a,b` at its first comma gives `a` and `b` when `a` holds no comma.
proof fn lemma_cut(a: Seq<char>, b: Seq<char>)
    requires
        no_comma(a),
    ensures
        find_char(a + seq![','] + b, ',') == a.len(),
        (a + seq![','] + b).take(a.len() as int) == a,
        (a + seq![','] + b).skip(a.len() as int + 1) == b,
{
    let s = a + seq![','] + b;
    assert forall|i: int| 0 <= i < a.len() implies s[i] != ',' by {
        assert(s[i] == a[i]);
    }
    lemma_find_char_at(s, ',', a.len() as int);
    assert(s.take(a.len() as int) =~= a);
    assert(s.skip(a.len() as int + 1) =~= b);
}

/// A record's line splits back into its five fields when no field but the
/// note holds a comma.
proof fn lemma_split_csv_line(r: Record)
    requires
        no_comma(r.name@),
        no_comma(r.addr@),
    ensures
        split_fields(csv_line(r), 5) == seq![
            dec(r.id as nat),
            r.name@,
            date_text(r.date),
            r.addr@,
            r.note@,
        ],
{
    let f0 = dec(r.id as nat);
    let f2 = date_text(r.date);
    lemma_dec(r.id as nat);
    lemma_date_text_no_comma(r.date);
    assert(no_comma(f0));
    let s4 = r.addr@ + seq![','] + r.note@;
    let s3 = f2 + seq![','] + s4;
    let s2 = r.name@ + seq![','] + s3;
    let s1 = f0 + seq![','] + s2;
    assert(csv_line(r) =~= s1);
    lemma_cut(f0, s2);
    lemma_cut(r.name@, s3);
    lemma_cut(f2, s4);
    lemma_cut(r.addr@, r.note@);
    assert(split_fields(r.note@, 1) == seq![r.note@]);
    assert(split_fields(s4, 2) =~= seq![r.addr@, r.note@]);
    assert(split_fields(s3, 3) =~= seq![f2, r.addr@, r.note@]);
    assert(split_fields(s2, 4) =~= seq![r.name@, f2, r.addr@, r.note@]);
    assert(split_fields(s1, 5) =~= seq![f0, r.name@, f2, r.addr@, r.note@]);
}

/// Splits a data line into at most five fields, as `split_fields` describes.
pub fn split_line(s: &str) -> (r: Vec<String>)
    ensures
        views(r@) == split_fields(s@, 5),
{
    let len = s.unicode_len();
    let mut out: Vec<String> = Vec::new();
    let mut start: usize = 0;
    proof {
        assert(s@.skip(0) =~= s@);
        assert(views(out@) =~= Seq::<Seq<char>>::empty());
    }
    while out.len() < 4
        invariant
            len == s@.len(),
            start <= len,
            out.len() <= 4,
            views(out@) + split_fields(s@.skip(start as int), (5 - out.len()) as nat)
                == split_fields(s@, 5),
        decreases 4 - out.len(),
    {
        let ghost rest = s@.skip(start as int);
        let mut j: usize = start;
        while j < len && s.get_char(j) != ','
            invariant
                start <= j <= len,
                len == s@.len(),
                forall|i: int| start <= i < j ==> s@[i] != ',',
            decreases len - j,
        {
            j = j + 1;
        }
        proof {
            assert forall|i: int| 0 <= i < j - start implies rest[i] != ',' by {
                assert(rest[i] == s@[start + i]);
            }
            if j < len {
                assert(rest[j - start] == s@[j as int]);
            }
            lemma_find_char_at(rest, ',', j - start);
        }
        let field = String::from_str(s.substring_char(start, j));
        proof {
            assert(field@ =~= rest.take(j - start));
        }
        let ghost before = out@;
        out.push(field);
        proof {
            assert(views(out@) =~= views(before).push(rest.take(j - start)));
        }
        if j == len {
            proof {
                assert(rest.take(j - start) =~= rest);
                assert(views(out@) + Seq::<Seq<char>>::empty() =~= views(out@));
                assert(split_fields(rest, (5 - before.len()) as nat) == seq![rest]);
                assert(views(out@) =~= views(before) + seq![rest]);
            }
            return out;
        }
        proof {
            assert(rest.skip(j - start + 1) =~= s@.skip(j + 1));
            let k = (5 - before.len()) as nat;
            assert(split_fields(rest, k) == seq![rest.take(j - start)] + split_fields(
                s@.skip(j + 1),
                (k - 1) as nat,
            ));
            assert(views(before) + split_fields(rest, k) =~= views(out@) + split_fields(
                s@.skip(j + 1),
                (k - 1) as nat,
            ));
        }
        start = j + 1;
    }
    let field = String::from_str(s.substring_char(start, len));
    let ghost before = out@;
    out.push(field);
    proof {
        assert(s@.subrange(start as int, len as int) =~= s@.skip(start as int));
        assert(views(out@) =~= views(before).push(s@.skip(start as int)));
        assert(views(out@) =~= views(before) + seq![s@.skip(start as int)]);
    }
    out
}

/// Appends `tail` to `s`.
fn add_text(s: &mut String, tail: &str)
    ensures
        final(s)@ == old(s)@ + tail@,
{
    s.append(tail);
}

impl Record {
    /// A record whose date is a real calendar date.
    pub open spec fn wf(self) -> bool {
        self.date.wf()
    }

    /// Builds a record from the five fields id, name, date, address, note.
    pub fn new(fields: &Vec<String>) -> (r: Result<Record, BookError>)
        ensures
            r is Ok <==> fields_error(views(fields@)) is None,
            r matches Ok(rec) ==> record_of(views(fields@), rec),
            r matches Err(e) ==> fields_error(views(fields@)) == Some(e),
    {
        let ghost f = views(fields@);
        if fields.len() != 5 {
            return Err(BookError::MalformedRecord);
        }
        proof {
            assert(f[0] == fields@[0]@);
            assert(f[2] == fields@[2]@);
        }
        let id = match parse_u32(fields[0].as_str()) {
            Some(v) => v,
            None => return Err(BookError::BadInteger),
        };
        let date = match Date::parse(fields[2].as_str()) {
            Some(d) => d,
            None => return Err(BookError::BadDate),
        };
        let rec = Record {
            id,
            name: fields[1].clone(),
            date,
            addr: fields[3].clone(),
            note: fields[4].clone(),
        };
        proof {
            assert(f[1] == fields@[1]@);
            assert(f[3] == fields@[3]@);
            assert(f[4] == fields@[4]@);
        }
        Ok(rec)
    }

    /// Builds a record from a data line `id,name,date,address,note`; the note
    /// keeps any further commas.
    pub fn from_line(line: &str) -> (r: Result<Record, BookError>)
        ensures
            r is Ok <==> fields_error(split_fields(line@, 5)) is None,
            r matches Ok(rec) ==> record_of(split_fields(line@, 5), rec),
            r matches Err(e) ==> fields_error(split_fields(line@, 5)) == Some(e),
    {
        let fields = split_line(line);
        Record::new(&fields)
    }

    /// The record as one comma-separated line. When neither the name nor the
    /// address holds a comma, the line reads back as the same record.
    pub fn to_csv(&self) -> (r: String)
        requires
            self.wf(),
        ensures
            r@ == csv_line(*self),
            no_comma(self.name@) && no_comma(self.addr@) ==> {
                &&& fields_error(split_fields(r@, 5)) is None
                &&& forall|q: Record| record_of(split_fields(r@, 5), q) ==> same_record(q, *self)
            },
    {
        let mut s = u32_text(self.id);
        add_text(&mut s, ",");
        add_text(&mut s, self.name.as_str());
        add_text(&mut s, ",");
        let d = self.date.text();
        add_text(&mut s, d.as_str());
        add_text(&mut s, ",");
        add_text(&mut s, self.addr.as_str());
        add_text(&mut s, ",");
        add_text(&mut s, self.note.as_str());
        proof {
            reveal_strlit(",");
            assert(s@ =~= csv_line(*self));
            if no_comma(self.name@) && no_comma(self.addr@) {
                lemma_split_csv_line(*self);
                lemma_u32_of_dec(self.id);
            }
        }
        s
    }

    /// The bordered block that shows the record.
    pub fn display(&self) -> (r: String)
        requires
            self.wf(),
        ensures
            r@ == display_text(*self),
    {
        let mut s = String::from_str("-----\nID: ");
        let id = u32_text(self.id);
        add_text(&mut s, id.as_str());
        add_text(&mut s, "\nName: ");
        add_text(&mut s, self.name.as_str());
        add_text(&mut s, "\nDate: ");
        let d = self.date.text();
        add_text(&mut s, d.as_str());
        add_text(&mut s, "\nAddr: ");
        add_text(&mut s, self.addr.as_str());
        add_text(&mut s, "\nNote: ");
        add_text(&mut s, self.note.as_str());
        add_text(&mut s, "\n-----");
        s
    }

    /// Whether `word` equals the id, name, date, address or note as text,
    /// exactly and case-sensitively.
    pub fn is_match(&self, word: &str) -> (r: bool)
        requires
            self.wf(),
        ensures
            r == record_matches(*self, word@),
    {
        let w = String::from_str(word);
        let id = u32_text(self.id);
        let d = self.date.text();
        id == w || self.name == w || d == w || self.addr == w || self.note == w
    }
}

} // verus!
