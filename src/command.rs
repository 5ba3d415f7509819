use vstd::prelude::*;
use vstd::string::*;

use crate::book::{book_csv, matching, print_range, shown, sorted_by, span, Book};
use crate::error::BookError;
use crate::record::{fields_error, record_of, split_fields, Record};
use crate::text::{find_char, i32_of, lemma_find_char_at, parse_i32};

verus! {

/// A directive line, parsed.
pub enum Command {
    /// `%Q`: stop the session.
    Quit,
    /// `%C`: report how many records there are.
    Check,
    /// `%P n`: show the first `n`, the last `-n`, or (for 0) all records.
    Print(i32),
    /// `%W file`: save every record to a file.
    Write(String),
    /// `%R file`: feed every line of a file through the book.
    Read(String),
    /// `%S k`: sort by key `k`.
    Sort(i32),
    /// `%F word`: show the records that `word` matches.
    Find(String),
    /// Any other directive, as written.
    NotDefine(String),
}

/// What a directive means, with its text arguments as character sequences.
pub enum Directive {
    Quit,
    Check,
    Print(i32),
    Write(Seq<char>),
    Read(Seq<char>),
    Sort(i32),
    Find(Seq<char>),
    Unknown(Seq<char>),
}

impl View for Command {
    type V = Directive;

    open spec fn view(&self) -> Directive {
        match self {
            Command::Quit => Directive::Quit,
            Command::Check => Directive::Check,
            Command::Print(n) => Directive::Print(*n),
            Command::Write(f) => Directive::Write(f@),
            Command::Read(f) => Directive::Read(f@),
            Command::Sort(k) => Directive::Sort(*k),
            Command::Find(w) => Directive::Find(w@),
            Command::NotDefine(t) => Directive::Unknown(t@),
        }
    }
}

/// What applying a line asks of the caller, or reports to it.
pub enum Effect {
    /// Stop the session.
    Quit,
    /// The number of records.
    Count(usize),
    /// A record was appended; it is the last one.
    Added,
    /// Show the records at these positions, in this order.
    Show(Vec<usize>),
    /// The records were reordered.
    Sorted,
    /// Write this text to the file named first.
    Save(String, String),
    /// Feed the lines of the named file back through `apply_line`, stopping at
    /// the first error.
    Load(String),
}

/// The first space-separated word of a directive line.
pub open spec fn head_token(s: Seq<char>) -> Seq<char> {
    s.take(find_char(s, ' '))
}

/// The word after the first space, up to the next space, if there is a first space.
pub open spec fn argument(s: Seq<char>) -> Option<Seq<char>> {
    let p = find_char(s, ' ');
    if p < s.len() {
        let rest = s.skip(p + 1);
        Some(rest.take(find_char(rest, ' ')))
    } else {
        None
    }
}

/// The meaning of a directive line, or why it has none.
pub open spec fn directive_of(s: Seq<char>) -> Result<Directive, BookError> {
    let t = head_token(s);
    let a = argument(s);
    if t == "%Q"@ {
        Ok(Directive::Quit)
    } else if t == "%C"@ {
        Ok(Directive::Check)
    } else if t == "%P"@ {
        match a {
            None => Err(BookError::MissingArgument),
            Some(x) => match i32_of(x) {
                Some(n) => Ok(Directive::Print(n)),
                None => Err(BookError::BadInteger),
            },
        }
    } else if t == "%W"@ {
        match a {
            None => Err(BookError::MissingArgument),
            Some(x) => Ok(Directive::Write(x)),
        }
    } else if t == "%R"@ {
        match a {
            None => Err(BookError::MissingArgument),
            Some(x) => Ok(Directive::Read(x)),
        }
    } else if t == "%S"@ {
        match a {
            None => Err(BookError::MissingArgument),
            Some(x) => match i32_of(x) {
                Some(n) => Ok(Directive::Sort(n)),
                None => Err(BookError::BadInteger),
            },
        }
    } else if t == "%F"@ {
        match a {
            None => Err(BookError::MissingArgument),
            Some(x) => Ok(Directive::Find(x)),
        }
    } else {
        Ok(Directive::Unknown(t))
    }
}

/// Running directive `d` on the records `old` leaves `new` and answers `r`.
pub open spec fn outcome(
    old: Seq<Record>,
    d: Directive,
    new: Seq<Record>,
    r: Result<Effect, BookError>,
) -> bool {
    match d {
        Directive::Quit => new == old && r == Ok::<Effect, BookError>(Effect::Quit),
        Directive::Check => new == old && r == Ok::<Effect, BookError>(
            Effect::Count(old.len() as usize),
        ),
        Directive::Print(n) => {
            let (lo, hi) = print_range(old.len() as int, n as int);
            &&& new == old
            &&& r matches Ok(Effect::Show(ix))
            &&& ix@ == span(lo, hi)
            &&& shown(old, ix@) == old.subrange(lo, hi)
        },
        Directive::Write(f) => {
            &&& new == old
            &&& r matches Ok(Effect::Save(path, text))
            &&& path@ == f
            &&& text@ == book_csv(old)
        },
        Directive::Read(f) => {
            &&& new == old
            &&& r matches Ok(Effect::Load(path))
            &&& path@ == f
        },
        Directive::Sort(k) => if 1 <= k <= 5 {
            new == sorted_by(old, k as int) && r == Ok::<Effect, BookError>(Effect::Sorted)
        } else {
            new == old && r == Err::<Effect, BookError>(BookError::InvalidSortKey)
        },
        Directive::Find(w) => {
            &&& new == old
            &&& r matches Ok(Effect::Show(ix))
            &&& forall|j: int| 0 <= j < ix@.len() ==> ix@[j] < old.len()
            &&& shown(old, ix@) == matching(old, w)
        },
        Directive::Unknown(t) => {
            &&& new == old
            &&& r matches Err(BookError::UnknownDirective(u))
            &&& u@ == t
        },
    }
}

/// A data line `s` applied to `old` leaves `new` and answers `r`: either the
/// record it describes is appended, or nothing changes and the reason is given.
pub open spec fn added(
    old: Seq<Record>,
    s: Seq<char>,
    new: Seq<Record>,
    r: Result<Effect, BookError>,
) -> bool {
    let f = split_fields(s, 5);
    match fields_error(f) {
        Some(e) => new == old && r == Err::<Effect, BookError>(e),
        None => {
            &&& r == Ok::<Effect, BookError>(Effect::Added)
            &&& new.len() == old.len() + 1
            &&& new.drop_last() == old
            &&& record_of(f, new.last())
        },
    }
}

/// The line without its terminator (`\n` or `\r\n`).
pub open spec fn strip_eol(s: Seq<char>) -> Seq<char> {
    if s.len() > 0 && s.last() == '\n' {
        let t = s.drop_last();
        if t.len() > 0 && t.last() == '\r' {
            t.drop_last()
        } else {
            t
        }
    } else {
        s
    }
}

/// Applying the (stripped) line `s` to `old` leaves `new` and answers `r`.
pub open spec fn line_outcome(
    old: Seq<Record>,
    s: Seq<char>,
    new: Seq<Record>,
    r: Result<Effect, BookError>,
) -> bool {
    if s.len() > 0 && s[0] == '%' {
        match directive_of(s) {
            Err(e) => new == old && r == Err::<Effect, BookError>(e),
            Ok(d) => outcome(old, d, new, r),
        }
    } else {
        added(old, s, new, r)
    }
}

/// Starting from an empty book, each accepted data line adds one record, so
/// after `k` of them `%C` reports `k`.
pub proof fn lemma_count_after_additions(
    books: Seq<Seq<Record>>,
    lines: Seq<Seq<char>>,
    r: Result<Effect, BookError>,
)
    requires
        books.len() == lines.len() + 1,
        books[0].len() == 0,
        forall|i: int|
            0 <= i < lines.len() ==> line_outcome(
                #[trigger] books[i],
                lines[i],
                books[i + 1],
                Ok(Effect::Added),
            ),
        outcome(books.last(), Directive::Check, books.last(), r),
    ensures
        books.last().len() == lines.len(),
        r == Ok::<Effect, BookError>(Effect::Count(lines.len() as usize)),
{
    lemma_count_len(books, lines);
}

proof fn lemma_count_len(books: Seq<Seq<Record>>, lines: Seq<Seq<char>>)
    requires
        books.len() == lines.len() + 1,
        books[0].len() == 0,
        forall|i: int|
            0 <= i < lines.len() ==> line_outcome(
                #[trigger] books[i],
                lines[i],
                books[i + 1],
                Ok(Effect::Added),
            ),
    ensures
        books.last().len() == lines.len(),
    decreases lines.len(),
{
    if lines.len() > 0 {
        let n = lines.len() - 1;
        let b = books.drop_last();
        let l = lines.drop_last();
        assert forall|i: int| 0 <= i < l.len() implies line_outcome(
            #[trigger] b[i],
            l[i],
            b[i + 1],
            Ok(Effect::Added),
        ) by {
            assert(b[i] == books[i] && b[i + 1] == books[i + 1] && l[i] == lines[i]);
        }
        lemma_count_len(b, l);
        assert(line_outcome(books[n], lines[n], books[n + 1], Ok(Effect::Added)));
        assert(b.last() == books[n]);
    }
}

/// The position of the first `c` at or after `from`, or the length of `s`.
fn find_from(s: &str, from: usize, c: char) -> (r: usize)
    requires
        from <= s@.len(),
    ensures
        r == from + find_char(s@.skip(from as int), c),
        from <= r <= s@.len(),
{
    let len = s.unicode_len();
    let mut j: usize = from;
    while j < len && s.get_char(j) != c
        invariant
            from <= j <= len,
            len == s@.len(),
            forall|i: int| from <= i < j ==> s@[i] != c,
        decreases len - j,
    {
        j = j + 1;
    }
    proof {
        let rest = s@.skip(from as int);
        assert forall|i: int| 0 <= i < j - from implies rest[i] != c by {
            assert(rest[i] == s@[from + i]);
        }
        if j < len {
            assert(rest[j - from] == s@[j as int]);
        }
        lemma_find_char_at(rest, c, j - from);
    }
    j
}

/// Whether `t` reads exactly `lit`.
fn is_word(t: &String, lit: &str) -> (r: bool)
    ensures
        r == (t@ == lit@),
{
    let w = String::from_str(lit);
    *t == w
}

/// Parses a directive line `%X [arg]`; words are separated by single spaces and
/// at most one argument is read.
pub fn parse_directive(line: &str) -> (r: Result<Command, BookError>)
    ensures
        r matches Ok(c) ==> directive_of(line@) == Ok::<Directive, BookError>(c@),
        r matches Err(e) ==> directive_of(line@) == Err::<Directive, BookError>(e),
{
    let len = line.unicode_len();
    let p = find_from(line, 0, ' ');
    proof {
        assert(line@.skip(0) =~= line@);
    }
    let tok = String::from_str(line.substring_char(0, p));
    proof {
        assert(tok@ =~= head_token(line@));
    }
    let arg: Option<String> = if p < len {
        let q = find_from(line, p + 1, ' ');
        let a = String::from_str(line.substring_char(p + 1, q));
        proof {
            let rest = line@.skip(p + 1);
            assert(a@ =~= rest.take(find_char(rest, ' ')));
        }
        Some(a)
    } else {
        None
    };
    proof {
        assert(match arg {
            Some(a) => argument(line@) == Some(a@),
            None => argument(line@) is None,
        });
    }
    if is_word(&tok, "%Q") {
        Ok(Command::Quit)
    } else if is_word(&tok, "%C") {
        Ok(Command::Check)
    } else if is_word(&tok, "%P") {
        match arg {
            None => Err(BookError::MissingArgument),
            Some(a) => match parse_i32(a.as_str()) {
                Some(n) => Ok(Command::Print(n)),
                None => Err(BookError::BadInteger),
            },
        }
    } else if is_word(&tok, "%W") {
        match arg {
            None => Err(BookError::MissingArgument),
            Some(a) => Ok(Command::Write(a)),
        }
    } else if is_word(&tok, "%R") {
        match arg {
            None => Err(BookError::MissingArgument),
            Some(a) => Ok(Command::Read(a)),
        }
    } else if is_word(&tok, "%S") {
        match arg {
            None => Err(BookError::MissingArgument),
            Some(a) => match parse_i32(a.as_str()) {
                Some(n) => Ok(Command::Sort(n)),
                None => Err(BookError::BadInteger),
            },
        }
    } else if is_word(&tok, "%F") {
        match arg {
            None => Err(BookError::MissingArgument),
            Some(a) => Ok(Command::Find(a)),
        }
    } else {
        Ok(Command::NotDefine(tok))
    }
}

/// The line without its terminator (`\n` or `\r\n`); other whitespace is kept.
pub fn strip_line_end(line: &str) -> (r: &str)
    ensures
        r@ == strip_eol(line@),
{
    let len = line.unicode_len();
    if len > 0 && line.get_char(len - 1) == '\n' {
        if len > 1 && line.get_char(len - 2) == '\r' {
            let r = line.substring_char(0, len - 2);
            proof {
                assert(r@ =~= line@.drop_last().drop_last());
            }
            r
        } else {
            let r = line.substring_char(0, len - 1);
            proof {
                assert(r@ =~= line@.drop_last());
            }
            r
        }
    } else {
        line
    }
}

impl Book {
    /// Runs a parsed directive on the book.
    pub fn execute(&mut self, cmd: Command) -> (r: Result<Effect, BookError>)
        requires
            old(self).wf(),
        ensures
            final(self).wf(),
            outcome(old(self)@, cmd@, final(self)@, r),
    {
        match cmd {
            Command::Quit => Ok(Effect::Quit),
            Command::Check => Ok(Effect::Count(self.len())),
            Command::Print(n) => Ok(Effect::Show(self.print_indices(n))),
            Command::Write(path) => {
                let text = self.csv_text();
                Ok(Effect::Save(path, text))
            },
            Command::Read(path) => Ok(Effect::Load(path)),
            Command::Sort(k) => {
                if 1 <= k && k <= 5 {
                    self.sort_by_key(k as u32);
                    Ok(Effect::Sorted)
                } else {
                    Err(BookError::InvalidSortKey)
                }
            },
            Command::Find(word) => Ok(Effect::Show(self.find_indices(word.as_str()))),
            Command::NotDefine(t) => Err(BookError::UnknownDirective(t)),
        }
    }

    /// Applies one input line: a line starting with `%` is a directive, any
    /// other line is a record `id,name,date,address,note` to append.
    pub fn apply_line(&mut self, line: &str) -> (r: Result<Effect, BookError>)
        requires
            old(self).wf(),
        ensures
            final(self).wf(),
            line_outcome(old(self)@, strip_eol(line@), final(self)@, r),
    {
        let s = strip_line_end(line);
        let len = s.unicode_len();
        if len > 0 && s.get_char(0) == '%' {
            match parse_directive(s) {
                Ok(cmd) => self.execute(cmd),
                Err(e) => Err(e),
            }
        } else {
            match Record::from_line(s) {
                Ok(rec) => {
                    self.push(rec);
                    proof {
                        assert(self@.drop_last() =~= old(self)@);
                    }
                    Ok(Effect::Added)
                },
                Err(e) => Err(e),
            }
        }
    }
}

} // verus!
