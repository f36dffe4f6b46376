//! File-level mechanics of reading a PSS/E raw file.
//!
//! Raw files are line oriented and comma delimited, but with enough quirks that the splitting
//! deserves its own layer: fields may be quoted (single or double), an unquoted `/` starts a
//! trailing comment, sections are delimited by `0 / END OF x DATA, BEGIN y DATA` markers, and
//! v35 sprinkles `@!` column-header comments throughout.

use vstd::prelude::*;

use crate::number::{is_number, is_number_chars, lenient_int, lenient_int_chars};
use crate::text::{
    chars_eq, chars_of, decimal, decimal_chars, extend_chars, find, find_chars, slice_range,
    str_eq_chars, string_of, to_upper_ascii, trim, trim_end, trimmed, trimmed_end,
    upper_ascii_chars,
};

verus! {

/// Decode raw bytes as Latin-1.
///
/// Raw files predate UTF-8 and routinely carry CP-1252 bytes in their free-text comment lines
/// (the sample case has curly quotes at 0x93/0x94). Every byte maps to a char, so this never
/// fails and never mangles the ASCII that all the actual data is written in.
pub fn decode_latin1(bytes: &[u8]) -> (s: String)
    ensures
        s@.len() == bytes@.len(),
        forall|i: int| 0 <= i < bytes@.len() ==> s@[i] as u32 == bytes@[i] as u32,
{
    let mut v: Vec<char> = Vec::new();
    let mut k: usize = 0;
    while k < bytes.len()
        invariant
            k <= bytes@.len(),
            v@.len() == k,
            forall|i: int| 0 <= i < k ==> v@[i] as u32 == bytes@[i] as u32,
        decreases bytes@.len() - k,
    {
        v.push(bytes[k] as char);
        k = k + 1;
    }
    string_of(v.as_slice())
}

/// What went wrong reading a raw file.
#[derive(Debug)]
pub enum PsseError {
    /// The file's `REV` field names a revision we have no field map for.
    UnsupportedRevision(i32),
    /// A record was malformed or a required field was missing.
    Parse { line: usize, message: String },
    /// The file ended (or a section ended) in the middle of a multi-line record.
    Truncated { line: usize, what: String },
}

/// An error as its plain values.
pub enum PsseErrorSpec {
    UnsupportedRevision(i32),
    Parse { line: nat, message: Seq<char> },
    Truncated { line: nat, what: Seq<char> },
}

impl View for PsseError {
    type V = PsseErrorSpec;

    open spec fn view(&self) -> PsseErrorSpec {
        match self {
            PsseError::UnsupportedRevision(rev) => PsseErrorSpec::UnsupportedRevision(*rev),
            PsseError::Parse { line, message } => PsseErrorSpec::Parse {
                line: *line as nat,
                message: message@,
            },
            PsseError::Truncated { line, what } => PsseErrorSpec::Truncated {
                line: *line as nat,
                what: what@,
            },
        }
    }
}

/// How an error reads to the user.
pub open spec fn error_message(e: PsseErrorSpec) -> Seq<char> {
    match e {
        PsseErrorSpec::UnsupportedRevision(rev) => "unsupported PSS/E revision "@ + crate::text::int_decimal(
            rev as int,
        ) + " (supported: 32-35)"@,
        PsseErrorSpec::Parse { line, message } => "line "@ + decimal(line) + ": "@ + message,
        PsseErrorSpec::Truncated { line, what } => "line "@ + decimal(line) + ": file ended in the middle of "@
            + what,
    }
}

impl PsseError {
    /// The error as the user reads it.
    pub fn message(&self) -> (s: String)
        ensures
            s@ == error_message(self@),
    {
        let mut v: Vec<char> = Vec::new();
        match self {
            PsseError::UnsupportedRevision(rev) => {
                let a = chars_of("unsupported PSS/E revision ");
                extend_chars(&mut v, a.as_slice());
                let d = crate::text::int_decimal_chars(*rev as i64);
                extend_chars(&mut v, d.as_slice());
                let b = chars_of(" (supported: 32-35)");
                extend_chars(&mut v, b.as_slice());
            },
            PsseError::Parse { line, message } => {
                let a = chars_of("line ");
                extend_chars(&mut v, a.as_slice());
                let d = decimal_chars(*line as u128);
                extend_chars(&mut v, d.as_slice());
                let b = chars_of(": ");
                extend_chars(&mut v, b.as_slice());
                let m = chars_of(message.as_str());
                extend_chars(&mut v, m.as_slice());
            },
            PsseError::Truncated { line, what } => {
                let a = chars_of("line ");
                extend_chars(&mut v, a.as_slice());
                let d = decimal_chars(*line as u128);
                extend_chars(&mut v, d.as_slice());
                let b = chars_of(": file ended in the middle of ");
                extend_chars(&mut v, b.as_slice());
                let m = chars_of(what.as_str());
                extend_chars(&mut v, m.as_slice());
            },
        }
        proof {
            assert(v@ =~= error_message(self@));
        }
        string_of(v.as_slice())
    }
}

/// One comma-delimited field, remembering whether it was quoted.
///
/// Quoting matters for more than whitespace: the switched shunt layout shifted between
/// revisions, and the only stable landmark in the record is its quoted `RMIDNT` field.
#[derive(Debug, Clone, PartialEq)]
pub struct Field {
    pub text: String,
    pub quoted: bool,
}

/// A field as its text and whether it was quoted.
pub struct FieldSpec {
    pub text: Seq<char>,
    pub quoted: bool,
}

impl View for Field {
    type V = FieldSpec;

    open spec fn view(&self) -> FieldSpec {
        FieldSpec { text: self.text@, quoted: self.quoted }
    }
}

pub open spec fn fields_view(fields: Seq<Field>) -> Seq<FieldSpec> {
    fields.map_values(|f: Field| f@)
}

/// The field a run of characters becomes: quoted values lose their trailing padding, others
/// all surrounding whitespace.
pub open spec fn finished(text: Seq<char>, quoted: bool) -> FieldSpec {
    if quoted {
        FieldSpec { text: trim_end(text), quoted: true }
    } else {
        FieldSpec { text: trim(text), quoted: false }
    }
}

impl Field {
    fn unquoted(text: &[char]) -> (f: Field)
        ensures
            f@ == finished(text@, false),
    {
        let t = trimmed(text);
        Field { text: string_of(t.as_slice()), quoted: false }
    }
}

fn finish_field(text: &[char], quoted: bool) -> (f: Field)
    ensures
        f@ == finished(text@, quoted),
{
    if quoted {
        // Quoted values are fixed-width and padded; trailing blanks are never significant.
        let t = trimmed_end(text);
        Field { text: string_of(t.as_slice()), quoted: true }
    } else {
        Field::unquoted(text)
    }
}

/// Where the splitter stands partway through a line.
pub struct LexState {
    pub fields: Seq<FieldSpec>,
    pub current: Seq<char>,
    pub quoted_field: bool,
    pub quote: Option<char>,
    /// The text after an unquoted `/`, once one has been seen.
    pub comment: Option<Seq<char>>,
}

pub open spec fn lex_start() -> LexState {
    LexState {
        fields: Seq::empty(),
        current: Seq::empty(),
        quoted_field: false,
        quote: None,
        comment: None,
    }
}

/// The splitter's move on one character.
pub open spec fn lex_step(st: LexState, c: char) -> LexState {
    match st.comment {
        Some(b) => LexState { comment: Some(b.push(c)), ..st },
        None => match st.quote {
            Some(q) => if c == q {
                LexState { quote: None, ..st }
            } else {
                LexState { current: st.current.push(c), ..st }
            },
            None => if c == '\'' || c == '"' {
                LexState { quote: Some(c), quoted_field: true, ..st }
            } else if c == '/' {
                LexState { comment: Some(Seq::empty()), ..st }
            } else if c == ',' {
                LexState {
                    fields: st.fields.push(finished(st.current, st.quoted_field)),
                    current: Seq::empty(),
                    quoted_field: false,
                    ..st
                }
            } else {
                LexState { current: st.current.push(c), ..st }
            },
        },
    }
}

/// The splitter's state after the first `n` characters of `line`.
pub open spec fn lex(line: Seq<char>, n: nat) -> LexState
    decreases n,
{
    if n == 0 || n > line.len() {
        lex_start()
    } else {
        lex_step(lex(line, (n - 1) as nat), line[n - 1])
    }
}

/// The fields of a line and its trailing comment.
///
/// A line is a record only if something preceded the comment: `0 /END OF...` yields `["0"]`,
/// a line holding only a comment yields no fields.
pub open spec fn split_spec(line: Seq<char>) -> (Seq<FieldSpec>, Option<Seq<char>>) {
    let st = lex(line, line.len());
    let fields = if trim(st.current).len() > 0 || st.quoted_field || st.fields.len() > 0 {
        st.fields.push(finished(st.current, st.quoted_field))
    } else {
        st.fields
    };
    let comment = match st.comment {
        Some(b) => Some(trim(b)),
        None => None,
    };
    (fields, comment)
}

proof fn lemma_lex_prefix(line: Seq<char>, m: int, n: nat)
    requires
        n <= m <= line.len(),
    ensures
        lex(line.take(m), n) == lex(line, n),
    decreases n,
{
    if n > 0 {
        lemma_lex_prefix(line, m, (n - 1) as nat);
        assert(line.take(m)[n - 1] == line[n - 1]);
    }
}

proof fn lemma_lex_in_comment(line: Seq<char>, i: int, n: nat)
    requires
        0 <= i < line.len(),
        line[i] == '/',
        lex(line, i as nat).comment is None,
        lex(line, i as nat).quote is None,
        i + 1 <= n <= line.len(),
    ensures
        lex(line, n) == (LexState { comment: Some(line.subrange(i + 1, n as int)), ..lex(line, i as nat) }),
    decreases n,
{
    if n > i + 1 {
        lemma_lex_in_comment(line, i, (n - 1) as nat);
        assert(line.subrange(i + 1, n - 1).push(line[n - 1]) =~= line.subrange(i + 1, n as int));
    } else {
        assert(line.subrange(i + 1, n as int) =~= Seq::<char>::empty());
    }
}

/// The first `/` outside every quoted span starts the comment: the fields are those of the
/// text before it, and the comment is the rest of the line, trimmed.
pub proof fn lemma_comment_splits_prefix(line: Seq<char>, i: int)
    requires
        0 <= i < line.len(),
        line[i] == '/',
        lex(line, i as nat).comment is None,
        lex(line, i as nat).quote is None,
    ensures
        split_spec(line).0 == split_spec(line.take(i)).0,
        split_spec(line).1 == Some(trim(line.skip(i + 1))),
{
    lemma_lex_in_comment(line, i, line.len());
    lemma_lex_prefix(line, i, i as nat);
    assert(line.take(i).len() == i);
    assert(line.subrange(i + 1, line.len() as int) =~= line.skip(i + 1));
}

/// A line with no `/` outside its quoted spans has no comment.
pub proof fn lemma_no_slash_no_comment(line: Seq<char>)
    requires
        forall|i: int|
            0 <= i < line.len() && line[i] == '/' ==> (#[trigger] lex(line, i as nat)).comment is Some
                || lex(line, i as nat).quote is Some,
    ensures
        split_spec(line).1 is None,
{
    lemma_no_comment_upto(line, line.len());
}

proof fn lemma_no_comment_upto(line: Seq<char>, n: nat)
    requires
        n <= line.len(),
        forall|i: int|
            0 <= i < line.len() && line[i] == '/' ==> (#[trigger] lex(line, i as nat)).comment is Some
                || lex(line, i as nat).quote is Some,
    ensures
        lex(line, n).comment is None,
    decreases n,
{
    if n > 0 {
        lemma_no_comment_upto(line, (n - 1) as nat);
        let k = n - 1;
        if line[k] == '/' {
            assert(lex(line, k as nat).comment is Some || lex(line, k as nat).quote is Some);
        }
    }
}

/// Whether the character at `k` separates two fields: a `,` outside every quoted span and
/// before any comment.
pub open spec fn is_separator(line: Seq<char>, k: int) -> bool {
    &&& line[k] == ','
    &&& lex(line, k as nat).quote is None
    &&& lex(line, k as nat).comment is None
}

/// How many of the first `n` characters of `line` separate fields.
pub open spec fn separators(line: Seq<char>, n: nat) -> nat
    decreases n,
{
    if n == 0 {
        0
    } else {
        separators(line, (n - 1) as nat) + if is_separator(line, n - 1) {
            1nat
        } else {
            0nat
        }
    }
}

/// How much of the first `n` characters of `line` comes before its comment.
pub open spec fn body_end(line: Seq<char>, n: nat) -> nat
    decreases n,
{
    if n == 0 || lex(line, n).comment is None {
        n
    } else {
        body_end(line, (n - 1) as nat)
    }
}

/// Whether `s` holds no quote character.
pub open spec fn no_quotes(s: Seq<char>) -> bool {
    forall|k: int| 0 <= k < s.len() ==> s[k] != '\'' && s[k] != '"'
}

proof fn lemma_fields_are_separators(line: Seq<char>, n: nat)
    requires
        n <= line.len(),
    ensures
        lex(line, n).fields.len() == separators(line, n),
    decreases n,
{
    if n > 0 {
        lemma_fields_are_separators(line, (n - 1) as nat);
    }
}

proof fn lemma_comment_stays(line: Seq<char>, m: nat, n: nat)
    requires
        m <= n <= line.len(),
        lex(line, m).comment is Some,
    ensures
        lex(line, n).comment is Some,
    decreases n,
{
    if n > m {
        lemma_comment_stays(line, m, (n - 1) as nat);
    }
}

proof fn lemma_separators_grow(line: Seq<char>, m: nat, n: nat)
    requires
        m <= n,
    ensures
        separators(line, m) <= separators(line, n),
    decreases n,
{
    if n > m {
        lemma_separators_grow(line, m, (n - 1) as nat);
    }
}

proof fn lemma_body_end(line: Seq<char>, n: nat)
    requires
        n <= line.len(),
    ensures
        body_end(line, n) <= n,
        lex(line, body_end(line, n)).comment is None,
        body_end(line, n) < n ==> lex(line, body_end(line, n) + 1).comment is Some,
    decreases n,
{
    if n > 0 && lex(line, n).comment is Some {
        lemma_body_end(line, (n - 1) as nat);
    }
}

proof fn lemma_plain_body(line: Seq<char>, n: nat)
    requires
        n <= line.len(),
        lex(line, n).comment is None,
        separators(line, n) == 0,
    ensures
        lex(line, n).fields.len() == 0,
        no_quotes(line.take(n as int)) ==> lex(line, n).current == line.take(n as int) && !lex(
            line,
            n,
        ).quoted_field && lex(line, n).quote is None,
        !no_quotes(line.take(n as int)) ==> lex(line, n).quoted_field,
    decreases n,
{
    lemma_fields_are_separators(line, n);
    if n > 0 {
        let k = (n - 1) as nat;
        if lex(line, k).comment is Some {
            lemma_comment_stays(line, k, n);
        }
        lemma_separators_grow(line, k, n);
        lemma_plain_body(line, k);
        let prev = line.take(k as int);
        let cur = line.take(n as int);
        assert(cur == prev.push(line[k as int]));
        if no_quotes(cur) {
            assert forall|j: int| 0 <= j < prev.len() implies prev[j] != '\'' && prev[j] != '"' by {
                assert(prev[j] == cur[j]);
            }
            assert(cur[k as int] == line[k as int]);
            let c = line[k as int];
            assert(c != '/');
            assert(c != ',');
            assert(lex(line, n).current =~= cur);
        }
        if no_quotes(prev) {
            if !no_quotes(cur) {
                let j = choose|j: int| 0 <= j < cur.len() && !(cur[j] != '\'' && cur[j] != '"');
                if j < k {
                    assert(prev[j] == cur[j]);
                }
            }
        } else {
            let j = choose|j: int| 0 <= j < prev.len() && !(prev[j] != '\'' && prev[j] != '"');
            assert(cur[j] == prev[j]);
        }
    } else {
        assert(line.take(0) =~= Seq::<char>::empty());
    }
}

/// How many fields a line splits into: one more than its separators when it has any; when it
/// has none, one if the text before the comment holds anything but whitespace, else none.
pub proof fn lemma_field_count(line: Seq<char>)
    ensures
        split_spec(line).0.len() == if separators(line, line.len()) > 0 {
            separators(line, line.len()) + 1
        } else if trim(line.take(body_end(line, line.len()) as int)).len() > 0 {
            1
        } else {
            0
        },
{
    let n = line.len();
    let e = body_end(line, n);
    lemma_fields_are_separators(line, n);
    lemma_body_end(line, n);
    if separators(line, n) == 0 {
        lemma_separators_grow(line, e, n);
        lemma_plain_body(line, e);
        if e < n {
            assert(line[e as int] == '/' && lex(line, e).quote is None);
            lemma_lex_in_comment(line, e as int, n);
        }
        let st = lex(line, e);
        let body = line.take(e as int);
        if !no_quotes(body) {
            let j = choose|j: int| 0 <= j < body.len() && !(body[j] != '\'' && body[j] != '"');
            crate::text::lemma_trim_nonempty(body, j);
        }
    }
}

/// Whether a field carries no padding: a quoted one none at its end, any other none at either
/// end.
pub open spec fn field_trimmed(f: FieldSpec) -> bool {
    if f.quoted {
        trim_end(f.text) == f.text
    } else {
        trim(f.text) == f.text
    }
}

proof fn lemma_finished_trimmed(text: Seq<char>, quoted: bool)
    ensures
        field_trimmed(finished(text, quoted)),
{
    crate::text::lemma_trim_end_idempotent(text);
    crate::text::lemma_trim_idempotent(text);
}

proof fn lemma_lex_fields_trimmed(line: Seq<char>, n: nat)
    ensures
        forall|k: int| 0 <= k < lex(line, n).fields.len() ==> field_trimmed(#[trigger] lex(line, n).fields[k]),
    decreases n,
{
    if n > 0 && n <= line.len() {
        let prev = lex(line, (n - 1) as nat);
        lemma_lex_fields_trimmed(line, (n - 1) as nat);
        lemma_finished_trimmed(prev.current, prev.quoted_field);
        assert forall|k: int| 0 <= k < lex(line, n).fields.len() implies field_trimmed(
            #[trigger] lex(line, n).fields[k],
        ) by {
            if k < prev.fields.len() {
                assert(lex(line, n).fields[k] == prev.fields[k]);
            }
        }
    }
}

/// No field a line splits into carries padding: unquoted fields are trimmed at both ends and
/// quoted ones at their end.
pub proof fn lemma_fields_trimmed(line: Seq<char>)
    ensures
        forall|k: int| 0 <= k < split_spec(line).0.len() ==> field_trimmed(#[trigger] split_spec(line).0[k]),
{
    let st = lex(line, line.len());
    lemma_lex_fields_trimmed(line, line.len());
    lemma_finished_trimmed(st.current, st.quoted_field);
    assert forall|k: int| 0 <= k < split_spec(line).0.len() implies field_trimmed(
        #[trigger] split_spec(line).0[k],
    ) by {
        if k < st.fields.len() {
            assert(split_spec(line).0[k] == st.fields[k]);
        }
    }
}

/// Split one raw-file line into fields.
///
/// Honours single and double quotes, and treats the first unquoted `/` as the start of a
/// trailing comment (which is where section markers hide their names).
pub fn split_fields(line: &str) -> (r: (Vec<Field>, Option<String>))
    ensures
        fields_view(r.0@) == split_spec(line@).0,
        r.1 is Some <==> split_spec(line@).1 is Some,
        r.1 matches Some(c) ==> split_spec(line@).1 == Some(c@),
{
    let chars = chars_of(line);
    split_chars(chars.as_slice())
}

/// [`split_fields`] on the characters of a line.
pub fn split_chars(line: &[char]) -> (r: (Vec<Field>, Option<String>))
    ensures
        fields_view(r.0@) == split_spec(line@).0,
        r.1 is Some <==> split_spec(line@).1 is Some,
        r.1 matches Some(c) ==> split_spec(line@).1 == Some(c@),
{
    let mut fields: Vec<Field> = Vec::new();
    let mut current: Vec<char> = Vec::new();
    let mut quoted_field = false;
    let mut quote: Option<char> = None;
    let mut comment: Option<Vec<char>> = None;
    let mut i: usize = 0;
    while i < line.len()
        invariant
            i <= line@.len(),
            ({
                let st = lex(line@, i as nat);
                &&& fields_view(fields@) == st.fields
                &&& current@ == st.current
                &&& quoted_field == st.quoted_field
                &&& quote == st.quote
                &&& (comment is Some <==> st.comment is Some)
                &&& (comment matches Some(b) ==> st.comment == Some(b@))
            }),
        decreases line@.len() - i,
    {
        let c = line[i];
        let ghost before = lex(line@, i as nat);
        proof {
            assert(lex(line@, (i + 1) as nat) == lex_step(before, c));
        }
        match comment {
            Some(ref mut b) => {
                b.push(c);
            },
            None => match quote {
                Some(q) => {
                    if c == q {
                        quote = None;
                    } else {
                        current.push(c);
                    }
                },
                None => {
                    if c == '\'' || c == '"' {
                        quote = Some(c);
                        quoted_field = true;
                    } else if c == '/' {
                        comment = Some(Vec::new());
                    } else if c == ',' {
                        let f = finish_field(current.as_slice(), quoted_field);
                        fields.push(f);
                        proof {
                            assert(fields_view(fields@) =~= before.fields.push(
                                finished(before.current, before.quoted_field),
                            ));
                        }
                        current = Vec::new();
                        quoted_field = false;
                    } else {
                        current.push(c);
                    }
                },
            },
        }
        i = i + 1;
    }
    let ghost st = lex(line@, line@.len());
    let t = trimmed(current.as_slice());
    if t.len() > 0 || quoted_field || fields.len() > 0 {
        let f = finish_field(current.as_slice(), quoted_field);
        fields.push(f);
        proof {
            assert(fields_view(fields@) =~= st.fields.push(finished(st.current, st.quoted_field)));
        }
    }
    let comment_text = match comment {
        Some(b) => {
            let t = trimmed(b.as_slice());
            Some(string_of(t.as_slice()))
        },
        None => None,
    };
    (fields, comment_text)
}


/// The `Debug` rendering of a string: quoted, with special characters escaped.
pub uninterp spec fn debug_text(s: Seq<char>) -> Seq<char>;

/// `format!("{:?}", s)`: the standard library's `Debug` rendering of a string, which the
/// contract names without saying what the escapes are.
#[verifier::external_body]
fn debug_string(s: &str) -> (r: String)
    ensures
        r@ == debug_text(s@),
{
    format!("{:?}", s)
}

pub open spec fn missing_message(idx: nat, len: nat) -> Seq<char> {
    "expected at least "@ + decimal(idx + 1) + " fields, found "@ + decimal(len)
}

/// The message for field `idx`, shown as `shown`, which is not `what`.
pub open spec fn field_error_message(idx: nat, shown: Seq<char>, what: Seq<char>) -> Seq<char> {
    "field "@ + decimal(idx) + " ("@ + shown + ") is not "@ + what
}

/// The message for field `idx` holding `text`, which is not `what` ("a number", "an integer").
pub open spec fn bad_field_message(idx: nat, text: Seq<char>, what: Seq<char>) -> Seq<char> {
    field_error_message(idx, debug_text(text), what)
}

/// The error for field `idx` on line `line`, shown as `shown`, which is not `what`.
pub fn field_error(line: usize, idx: usize, shown: &str, what: &str) -> (e: PsseError)
    ensures
        is_parse_error(e, line, field_error_message(idx as nat, shown@, what@)),
{
    let mut m = chars_of("field ");
    let n = decimal_chars(idx as u128);
    extend_chars(&mut m, n.as_slice());
    let open = chars_of(" (");
    extend_chars(&mut m, open.as_slice());
    let shown_chars = chars_of(shown);
    extend_chars(&mut m, shown_chars.as_slice());
    let close = chars_of(") is not ");
    extend_chars(&mut m, close.as_slice());
    let w = chars_of(what);
    extend_chars(&mut m, w.as_slice());
    proof {
        reveal_strlit("field ");
        reveal_strlit(" (");
        reveal_strlit(") is not ");
        assert(m@ =~= field_error_message(idx as nat, shown@, what@));
    }
    PsseError::Parse { line, message: string_of(m.as_slice()) }
}

/// `e` is a parse error on `line` with message `message`.
pub open spec fn is_parse_error(e: PsseError, line: usize, message: Seq<char>) -> bool {
    e@ == PsseErrorSpec::Parse { line: line as nat, message }
}

/// A section marker: a lone unquoted `0` with nothing else on the line carrying data.
pub open spec fn is_terminator_spec(fields: Seq<FieldSpec>) -> bool {
    &&& fields.len() > 0
    &&& fields[0].text == seq!['0']
    &&& !fields[0].quoted
    &&& forall|i: int| 1 <= i < fields.len() ==> (#[trigger] fields[i]).text.len() == 0 && !fields[i].quoted
}

/// A parsed record: its fields, any trailing comment, and the line it came from.
#[derive(Debug, Clone)]
pub struct Record {
    pub fields: Vec<Field>,
    pub comment: Option<String>,
    pub line: usize,
}

/// A record as its fields, its comment and its line number.
pub struct RecordSpec {
    pub fields: Seq<FieldSpec>,
    pub comment: Option<Seq<char>>,
    pub line: nat,
}

pub open spec fn opt_string_view(s: Option<String>) -> Option<Seq<char>> {
    match s {
        Some(c) => Some(c@),
        None => None,
    }
}

impl View for Record {
    type V = RecordSpec;

    open spec fn view(&self) -> RecordSpec {
        RecordSpec {
            fields: fields_view(self.fields@),
            comment: opt_string_view(self.comment),
            line: self.line as nat,
        }
    }
}

/// The integer field `idx` of `fields` holds, or `default` when it is missing or holds none.
pub open spec fn field_int(fields: Seq<FieldSpec>, idx: int, default: i32) -> i32 {
    if 0 <= idx < fields.len() {
        match lenient_int(fields[idx].text) {
            Some(n) => n,
            None => default,
        }
    } else {
        default
    }
}

/// The number field `idx` of `fields` writes, or `default` when it is missing or is not one.
pub open spec fn field_number(fields: Seq<FieldSpec>, idx: int, default: Seq<char>) -> Seq<char> {
    if 0 <= idx < fields.len() && is_number(fields[idx].text) {
        fields[idx].text
    } else {
        default
    }
}

/// What `Record::text` gives for field `idx`.
pub open spec fn text_result(r: RecordSpec, idx: int) -> Result<Seq<char>, PsseErrorSpec> {
    if 0 <= idx < r.fields.len() {
        Ok(r.fields[idx].text)
    } else {
        Err(PsseErrorSpec::Parse { line: r.line, message: missing_message(idx as nat, r.fields.len()) })
    }
}

/// What `Record::i32` gives for field `idx`.
pub open spec fn int_result(r: RecordSpec, idx: int) -> Result<i32, PsseErrorSpec> {
    match text_result(r, idx) {
        Err(e) => Err(e),
        Ok(t) => match lenient_int(t) {
            Some(v) => Ok(v),
            None => Err(
                PsseErrorSpec::Parse {
                    line: r.line,
                    message: bad_field_message(idx as nat, t, "an integer"@),
                },
            ),
        },
    }
}

/// What `Record::number` gives for field `idx`.
pub open spec fn number_result(r: RecordSpec, idx: int) -> Result<Seq<char>, PsseErrorSpec> {
    match text_result(r, idx) {
        Err(e) => Err(e),
        Ok(t) => if is_number(t) {
            Ok(t)
        } else {
            Err(
                PsseErrorSpec::Parse {
                    line: r.line,
                    message: bad_field_message(idx as nat, t, "a number"@),
                },
            )
        },
    }
}

/// The text of field `idx`, or nothing when the record stops short of it.
pub open spec fn field_text(fields: Seq<FieldSpec>, idx: int) -> Seq<char> {
    if 0 <= idx < fields.len() {
        fields[idx].text
    } else {
        Seq::empty()
    }
}

impl Record {
    pub open spec fn fields_spec(&self) -> Seq<FieldSpec> {
        fields_view(self.fields@)
    }

    /// The text of field `idx`, if the record reaches it.
    pub open spec fn text_at(&self, idx: int) -> Option<Seq<char>> {
        if 0 <= idx < self.fields@.len() {
            Some(self.fields@[idx].text@)
        } else {
            None
        }
    }

    /// True for the `0 /END OF ... DATA` lines that delimit sections.
    ///
    /// A leading zero alone is not enough: transformer impedance lines can open with one. The
    /// distinguishing feature is that nothing else on the line carries data.
    pub fn is_terminator(&self) -> (r: bool)
        ensures
            r == is_terminator_spec(self.fields_spec()),
    {
        let n = self.fields.len();
        if n == 0 {
            return false;
        }
        let first = self.fields[0].text.as_str();
        let first_is_zero = first.unicode_len() == 1 && first.get_char(0) == '0';
        proof {
            assert(self.fields_spec()[0] == self.fields@[0]@);
            if first@.len() == 1 {
                if first_is_zero {
                    assert(first@ =~= seq!['0']);
                }
            }
        }
        if !first_is_zero || self.fields[0].quoted {
            return false;
        }
        let mut i: usize = 1;
        while i < n
            invariant
                n == self.fields@.len(),
                1 <= i <= n,
                forall|k: int| 1 <= k < i ==> (#[trigger] self.fields_spec()[k]).text.len() == 0
                    && !self.fields_spec()[k].quoted,
            decreases n - i,
        {
            proof {
                assert(self.fields_spec()[i as int] == self.fields@[i as int]@);
            }
            if !self.fields[i].text.as_str().is_empty() || self.fields[i].quoted {
                return false;
            }
            i = i + 1;
        }
        true
    }

    pub fn len(&self) -> (n: usize)
        ensures
            n == self.fields@.len(),
    {
        self.fields.len()
    }

    /// The error for a record that stops short of field `idx`.
    fn missing(&self, idx: usize) -> (e: PsseError)
        ensures
            is_parse_error(e, self.line, missing_message(idx as nat, self.fields@.len())),
    {
        let mut m = chars_of("expected at least ");
        let count = decimal_chars(idx as u128 + 1);
        extend_chars(&mut m, count.as_slice());
        let found = chars_of(" fields, found ");
        extend_chars(&mut m, found.as_slice());
        let n = decimal_chars(self.fields.len() as u128);
        extend_chars(&mut m, n.as_slice());
        PsseError::Parse { line: self.line, message: string_of(m.as_slice()) }
    }

    /// The text of field `idx`.
    pub fn text(&self, idx: usize) -> (r: Result<&str, PsseError>)
        ensures
            match r {
                Ok(t) => text_result(self@, idx as int) == Ok::<Seq<char>, PsseErrorSpec>(t@),
                Err(e) => text_result(self@, idx as int) == Err::<Seq<char>, PsseErrorSpec>(e@),
            },
            match r {
                Ok(t) => self.text_at(idx as int) == Some(t@),
                Err(e) => self.text_at(idx as int) is None && is_parse_error(
                    e,
                    self.line,
                    missing_message(idx as nat, self.fields@.len()),
                ),
            },
    {
        if idx < self.fields.len() {
            Ok(self.fields[idx].text.as_str())
        } else {
            Err(self.missing(idx))
        }
    }

    /// Field `idx` as text, or `""` if the record stops short of it.
    ///
    /// Raw files may omit trailing fields that would take their default value.
    pub fn opt_text(&self, idx: usize) -> (t: &str)
        ensures
            t@ == field_text(self@.fields, idx as int),
    {
        if idx < self.fields.len() {
            self.fields[idx].text.as_str()
        } else {
            proof {
                reveal_strlit("");
            }
            ""
        }
    }

    /// The message for field `idx` holding `text`, which is not `what`.
    fn bad_field(&self, idx: usize, text: &str, what: &str) -> (e: PsseError)
        ensures
            is_parse_error(e, self.line, bad_field_message(idx as nat, text@, what@)),
    {
        let shown = debug_string(text);
        field_error(self.line, idx, shown.as_str(), what)
    }

    /// Field `idx` when it holds a number, as written.
    pub fn number(&self, idx: usize) -> (r: Result<&str, PsseError>)
        ensures
            match r {
                Ok(t) => number_result(self@, idx as int) == Ok::<Seq<char>, PsseErrorSpec>(t@),
                Err(e) => number_result(self@, idx as int) == Err::<Seq<char>, PsseErrorSpec>(e@),
            },
            match r {
                Ok(t) => self.text_at(idx as int) == Some(t@) && is_number(t@),
                Err(e) => match self.text_at(idx as int) {
                    None => is_parse_error(
                        e,
                        self.line,
                        missing_message(idx as nat, self.fields@.len()),
                    ),
                    Some(t) => !is_number(t) && is_parse_error(
                        e,
                        self.line,
                        bad_field_message(idx as nat, t, "a number"@),
                    ),
                },
            },
    {
        let text = self.text(idx)?;
        let chars = chars_of(text);
        if is_number_chars(chars.as_slice()) {
            Ok(text)
        } else {
            Err(self.bad_field(idx, text, "a number"))
        }
    }

    /// Field `idx` when it holds a number, or `default` when it is missing or is not one.
    pub fn opt_number<'a>(&'a self, idx: usize, default: &'a str) -> (t: &'a str)
        ensures
            t@ == field_number(self@.fields, idx as int, default@),
    {
        match self.number(idx) {
            Ok(t) => t,
            Err(_) => default,
        }
    }

    /// Field `idx` as an integer, tolerating values written with a decimal point.
    pub fn i32(&self, idx: usize) -> (r: Result<i32, PsseError>)
        ensures
            match r {
                Ok(v) => int_result(self@, idx as int) == Ok::<i32, PsseErrorSpec>(v),
                Err(e) => int_result(self@, idx as int) == Err::<i32, PsseErrorSpec>(e@),
            },
            match r {
                Ok(v) => self.text_at(idx as int) matches Some(t) && lenient_int(t) == Some(v),
                Err(e) => match self.text_at(idx as int) {
                    None => is_parse_error(
                        e,
                        self.line,
                        missing_message(idx as nat, self.fields@.len()),
                    ),
                    Some(t) => lenient_int(t) is None && is_parse_error(
                        e,
                        self.line,
                        bad_field_message(idx as nat, t, "an integer"@),
                    ),
                },
            },
    {
        let text = self.text(idx)?;
        let chars = chars_of(text);
        match lenient_int_chars(chars.as_slice()) {
            Some(v) => Ok(v),
            None => Err(self.bad_field(idx, text, "an integer")),
        }
    }

    /// Field `idx` as an integer, or `default` when it is missing or is not one.
    pub fn opt_i32(&self, idx: usize, default: i32) -> (v: i32)
        ensures
            v == field_int(self@.fields, idx as int, default),
    {
        match self.i32(idx) {
            Ok(v) => v,
            Err(_) => default,
        }
    }

    /// Index of the last quoted field, used to anchor layouts that shifted between revisions.
    pub fn last_quoted(&self) -> (r: Option<usize>)
        ensures
            match r {
                Some(i) => i < self.fields@.len() && self.fields@[i as int].quoted && forall|k: int|
                    i < k < self.fields@.len() ==> !(#[trigger] self.fields@[k]).quoted,
                None => forall|k: int| 0 <= k < self.fields@.len() ==> !(#[trigger] self.fields@[k]).quoted,
            },
    {
        let mut i = self.fields.len();
        while i > 0
            invariant
                i <= self.fields@.len(),
                forall|k: int| i <= k < self.fields@.len() ==> !(#[trigger] self.fields@[k]).quoted,
            decreases i,
        {
            if self.fields[i - 1].quoted {
                return Some(i - 1);
            }
            i = i - 1;
        }
        None
    }
}


/// Which data section a record belongs to.
#[derive(Debug, Clone, PartialEq, Eq)]
pub enum Section {
    SystemWide,
    Bus,
    Load,
    FixedShunt,
    Generator,
    Branch,
    Transformer,
    SwitchedShunt,
    /// A section we recognise the name of but do not read.
    Other(String),
    /// Data following a marker that did not name what comes next.
    Unknown,
}

/// A section, with the name of an unread one as its characters.
pub enum SectionSpec {
    SystemWide,
    Bus,
    Load,
    FixedShunt,
    Generator,
    Branch,
    Transformer,
    SwitchedShunt,
    Other(Seq<char>),
    Unknown,
}

impl View for Section {
    type V = SectionSpec;

    open spec fn view(&self) -> SectionSpec {
        match self {
            Section::SystemWide => SectionSpec::SystemWide,
            Section::Bus => SectionSpec::Bus,
            Section::Load => SectionSpec::Load,
            Section::FixedShunt => SectionSpec::FixedShunt,
            Section::Generator => SectionSpec::Generator,
            Section::Branch => SectionSpec::Branch,
            Section::Transformer => SectionSpec::Transformer,
            Section::SwitchedShunt => SectionSpec::SwitchedShunt,
            Section::Other(name) => SectionSpec::Other(name@),
            Section::Unknown => SectionSpec::Unknown,
        }
    }
}

/// The name a section goes by in section markers.
pub open spec fn section_name(s: SectionSpec) -> Seq<char> {
    match s {
        SectionSpec::SystemWide => "SYSTEM-WIDE"@,
        SectionSpec::Bus => "BUS"@,
        SectionSpec::Load => "LOAD"@,
        SectionSpec::FixedShunt => "FIXED SHUNT"@,
        SectionSpec::Generator => "GENERATOR"@,
        SectionSpec::Branch => "BRANCH"@,
        SectionSpec::Transformer => "TRANSFORMER"@,
        SectionSpec::SwitchedShunt => "SWITCHED SHUNT"@,
        SectionSpec::Other(name) => name,
        SectionSpec::Unknown => "UNKNOWN"@,
    }
}

/// The section a marker name announces.
pub open spec fn section_named(name: Seq<char>) -> SectionSpec {
    if name == "SYSTEM-WIDE"@ {
        SectionSpec::SystemWide
    } else if name == "BUS"@ {
        SectionSpec::Bus
    } else if name == "LOAD"@ {
        SectionSpec::Load
    } else if name == "FIXED SHUNT"@ {
        SectionSpec::FixedShunt
    } else if name == "GENERATOR"@ {
        SectionSpec::Generator
    } else if name == "BRANCH"@ {
        SectionSpec::Branch
    } else if name == "TRANSFORMER"@ {
        SectionSpec::Transformer
    } else if name == "SWITCHED SHUNT"@ {
        SectionSpec::SwitchedShunt
    } else {
        SectionSpec::Other(name)
    }
}

/// Every section the reader decodes is found again by its name: a marker announcing the name
/// of a decoded section moves the scanner into that section, so its records are decoded.
pub proof fn lemma_section_names_round_trip(s: SectionSpec)
    requires
        !(s is Other),
        !(s is Unknown),
    ensures
        section_named(section_name(s)) == s,
{
    reveal_strlit("SYSTEM-WIDE");
    reveal_strlit("BUS");
    reveal_strlit("LOAD");
    reveal_strlit("FIXED SHUNT");
    reveal_strlit("GENERATOR");
    reveal_strlit("BRANCH");
    reveal_strlit("TRANSFORMER");
    reveal_strlit("SWITCHED SHUNT");
    match s {
        SectionSpec::SystemWide => {

        },
        SectionSpec::Bus => {
            assert("BUS"@.len() != "SYSTEM-WIDE"@.len());
        },
        SectionSpec::Load => {
            assert("LOAD"@.len() != "SYSTEM-WIDE"@.len());
            assert("LOAD"@.len() != "BUS"@.len());
        },
        SectionSpec::FixedShunt => {
            assert("FIXED SHUNT"@[0] != "SYSTEM-WIDE"@[0]);
            assert("FIXED SHUNT"@.len() != "BUS"@.len());
            assert("FIXED SHUNT"@.len() != "LOAD"@.len());
        },
        SectionSpec::Generator => {
            assert("GENERATOR"@.len() != "SYSTEM-WIDE"@.len());
            assert("GENERATOR"@.len() != "BUS"@.len());
            assert("GENERATOR"@.len() != "LOAD"@.len());
            assert("GENERATOR"@.len() != "FIXED SHUNT"@.len());
        },
        SectionSpec::Branch => {
            assert("BRANCH"@.len() != "SYSTEM-WIDE"@.len());
            assert("BRANCH"@.len() != "BUS"@.len());
            assert("BRANCH"@.len() != "LOAD"@.len());
            assert("BRANCH"@.len() != "FIXED SHUNT"@.len());
            assert("BRANCH"@.len() != "GENERATOR"@.len());
        },
        SectionSpec::Transformer => {
            assert("TRANSFORMER"@[0] != "SYSTEM-WIDE"@[0]);
            assert("TRANSFORMER"@.len() != "BUS"@.len());
            assert("TRANSFORMER"@.len() != "LOAD"@.len());
            assert("TRANSFORMER"@[0] != "FIXED SHUNT"@[0]);
            assert("TRANSFORMER"@.len() != "GENERATOR"@.len());
            assert("TRANSFORMER"@.len() != "BRANCH"@.len());
        },
        SectionSpec::SwitchedShunt => {
            assert("SWITCHED SHUNT"@.len() != "SYSTEM-WIDE"@.len());
            assert("SWITCHED SHUNT"@.len() != "BUS"@.len());
            assert("SWITCHED SHUNT"@.len() != "LOAD"@.len());
            assert("SWITCHED SHUNT"@.len() != "FIXED SHUNT"@.len());
            assert("SWITCHED SHUNT"@.len() != "GENERATOR"@.len());
            assert("SWITCHED SHUNT"@.len() != "BRANCH"@.len());
            assert("SWITCHED SHUNT"@.len() != "TRANSFORMER"@.len());
        },
        _ => {},
    }
}

/// A section the reader does not decode keeps the name its marker gave it.
pub proof fn lemma_other_sections_keep_their_names(name: Seq<char>)
    requires
        !(section_named(name) is Other),
    ensures
        section_name(section_named(name)) == name,
{
}

impl Section {
    pub fn name(&self) -> (n: &str)
        ensures
            n@ == section_name(self@),
    {
        match self {
            Section::SystemWide => "SYSTEM-WIDE",
            Section::Bus => "BUS",
            Section::Load => "LOAD",
            Section::FixedShunt => "FIXED SHUNT",
            Section::Generator => "GENERATOR",
            Section::Branch => "BRANCH",
            Section::Transformer => "TRANSFORMER",
            Section::SwitchedShunt => "SWITCHED SHUNT",
            Section::Other(name) => name.as_str(),
            Section::Unknown => "UNKNOWN",
        }
    }

    fn from_name(name: &[char]) -> (s: Section)
        ensures
            s@ == section_named(name@),
    {
        if str_eq_chars("SYSTEM-WIDE", name) {
            Section::SystemWide
        } else if str_eq_chars("BUS", name) {
            Section::Bus
        } else if str_eq_chars("LOAD", name) {
            Section::Load
        } else if str_eq_chars("FIXED SHUNT", name) {
            Section::FixedShunt
        } else if str_eq_chars("GENERATOR", name) {
            Section::Generator
        } else if str_eq_chars("BRANCH", name) {
            Section::Branch
        } else if str_eq_chars("TRANSFORMER", name) {
            Section::Transformer
        } else if str_eq_chars("SWITCHED SHUNT", name) {
            Section::SwitchedShunt
        } else {
            Section::Other(string_of(name))
        }
    }

    /// A copy of this section.
    pub fn duplicate(&self) -> (s: Section)
        ensures
            s@ == self@,
    {
        match self {
            Section::SystemWide => Section::SystemWide,
            Section::Bus => Section::Bus,
            Section::Load => Section::Load,
            Section::FixedShunt => Section::FixedShunt,
            Section::Generator => Section::Generator,
            Section::Branch => Section::Branch,
            Section::Transformer => Section::Transformer,
            Section::SwitchedShunt => Section::SwitchedShunt,
            Section::Other(name) => Section::Other(name.clone()),
            Section::Unknown => Section::Unknown,
        }
    }

    /// Whether two sections are the same one.
    pub fn same_as(&self, other: &Section) -> (r: bool)
        ensures
            r == (self@ == other@),
    {
        match self {
            Section::SystemWide => match other {
                Section::SystemWide => true,
                _ => false,
            },
            Section::Bus => match other {
                Section::Bus => true,
                _ => false,
            },
            Section::Load => match other {
                Section::Load => true,
                _ => false,
            },
            Section::FixedShunt => match other {
                Section::FixedShunt => true,
                _ => false,
            },
            Section::Generator => match other {
                Section::Generator => true,
                _ => false,
            },
            Section::Branch => match other {
                Section::Branch => true,
                _ => false,
            },
            Section::Transformer => match other {
                Section::Transformer => true,
                _ => false,
            },
            Section::SwitchedShunt => match other {
                Section::SwitchedShunt => true,
                _ => false,
            },
            Section::Other(a) => match other {
                Section::Other(b) => String::eq(a, b),
                _ => false,
            },
            Section::Unknown => match other {
                Section::Unknown => true,
                _ => false,
            },
        }
    }
}

/// `s` without the suffix `suffix`, if it ends with it, as `str::strip_suffix` gives it.
pub open spec fn strip_suffix(s: Seq<char>, suffix: Seq<char>) -> Option<Seq<char>> {
    if suffix.len() <= s.len() && s.skip(s.len() - suffix.len()) == suffix {
        Some(s.take(s.len() - suffix.len()))
    } else {
        None
    }
}

/// The section name a marker comment announces, if it names one.
///
/// `END OF BUS DATA, BEGIN LOAD DATA` names its successor; `END OF SWITCHED SHUNT DATA` does
/// not, even though more sections follow it.
pub open spec fn marker_name(comment: Seq<char>) -> Option<Seq<char>> {
    let upper = to_upper_ascii(comment);
    match find(upper, "BEGIN"@) {
        None => None,
        Some(at) => {
            let rest = trim(upper.skip(at + "BEGIN"@.len()));
            let name = trim(
                match strip_suffix(rest, "DATA"@) {
                    Some(n) => n,
                    None => rest,
                },
            );
            if name.len() > 0 {
                Some(name)
            } else {
                None
            }
        },
    }
}

/// A marker comment names the section written after its first `BEGIN`: where the comment,
/// in upper case, goes on after that `BEGIN` with a space, a name with no whitespace at either
/// end, a space and `DATA`, it announces that name; a comment with no `BEGIN` announces none.
pub proof fn lemma_marker_announces(comment: Seq<char>, at: int, name: Seq<char>)
    requires
        find(to_upper_ascii(comment), "BEGIN"@) == Some(at),
        to_upper_ascii(comment).skip(at + 5) == seq![' '] + name + " DATA"@,
        name.len() > 0,
        !crate::text::is_ws(name[0]),
        !crate::text::is_ws(name.last()),
    ensures
        marker_name(comment) == Some(name),
{
    reveal_strlit("BEGIN");
    reveal_strlit(" DATA");
    reveal_strlit("DATA");
    let upper = to_upper_ascii(comment);
    let after = upper.skip(at + "BEGIN"@.len());
    assert(after == seq![' '] + name + " DATA"@);
    let core = name + " DATA"@;
    assert(after.drop_first() =~= core);
    assert(crate::text::is_ws(' '));
    assert(crate::text::trim_start(after) == crate::text::trim_start(core));
    assert(core[0] == name[0]);
    assert(crate::text::trim_start(core) == core);
    assert(core.last() == 'A');
    assert(!crate::text::is_ws('A'));
    assert(crate::text::trim_end(core) == core);
    let rest = trim(after);
    assert(rest == core);
    let front = name + seq![' '];
    assert(core.skip(core.len() - "DATA"@.len()) =~= "DATA"@);
    assert(core.take(core.len() - "DATA"@.len()) =~= front);
    assert(strip_suffix(rest, "DATA"@) == Some(front));
    assert(front[0] == name[0]);
    assert(crate::text::trim_start(front) == front);
    assert(front.drop_last() =~= name);
    assert(crate::text::trim_end(front) == crate::text::trim_end(name));
    assert(crate::text::trim_end(name) == name);
    assert(trim(front) == name);
}

/// A comment with no `BEGIN` in it announces no section.
pub proof fn lemma_marker_needs_begin(comment: Seq<char>)
    requires
        find(to_upper_ascii(comment), "BEGIN"@) is None,
    ensures
        marker_name(comment) is None,
{
}

/// Extract the section name a marker comment announces.
pub fn section_after_marker(comment: &str) -> (r: Option<String>)
    ensures
        r is Some <==> marker_name(comment@) is Some,
        r matches Some(n) ==> marker_name(comment@) == Some(n@),
{
    let chars = chars_of(comment);
    let upper = upper_ascii_chars(chars.as_slice());
    let begin_word = chars_of("BEGIN");
    let at = match find_chars(upper.as_slice(), begin_word.as_slice()) {
        Some(at) => at,
        None => {
            return None;
        },
    };
    let n = upper.len();
    let tail = slice_range(upper.as_slice(), at + begin_word.len(), n);
    proof {
        assert(tail@ =~= upper@.skip(at + "BEGIN"@.len()));
    }
    let rest = trimmed(tail.as_slice());
    let data_word = chars_of("DATA");
    let stripped = if data_word.len() <= rest.len() {
        let end = slice_range(rest.as_slice(), rest.len() - data_word.len(), rest.len());
        proof {
            assert(end@ =~= rest@.skip(rest@.len() - data_word@.len()));
        }
        if chars_eq(end.as_slice(), data_word.as_slice()) {
            let front = slice_range(rest.as_slice(), 0, rest.len() - data_word.len());
            proof {
                assert(front@ =~= rest@.take(rest@.len() - data_word@.len()));
            }
            front
        } else {
            rest
        }
    } else {
        rest
    };
    let name = trimmed(stripped.as_slice());
    if name.len() > 0 {
        Some(string_of(name.as_slice()))
    } else {
        None
    }
}


/// The pieces of `t` between newline characters.
pub open spec fn newline_pieces(t: Seq<char>) -> Seq<Seq<char>>
    decreases t.len(),
{
    if t.len() == 0 {
        seq![Seq::empty()]
    } else {
        let p = newline_pieces(t.drop_last());
        if t.last() == '\n' {
            p.push(Seq::empty())
        } else {
            p.update(p.len() - 1, p.last().push(t.last()))
        }
    }
}

/// `l` without its trailing carriage returns.
pub open spec fn strip_cr(l: Seq<char>) -> Seq<char>
    decreases l.len(),
{
    if l.len() > 0 && l.last() == '\r' {
        strip_cr(l.drop_last())
    } else {
        l
    }
}

/// The lines of `t` as `str::lines` yields them, each with trailing carriage returns removed: a
/// final newline does not start another line.
pub open spec fn text_lines(t: Seq<char>) -> Seq<Seq<char>> {
    let p = newline_pieces(t);
    let q = if p.last().len() == 0 {
        p.drop_last()
    } else {
        p
    };
    q.map_values(|l: Seq<char>| strip_cr(l))
}

proof fn lemma_newline_pieces_nonempty(t: Seq<char>)
    ensures
        newline_pieces(t).len() >= 1,
    decreases t.len(),
{
    if t.len() > 0 {
        lemma_newline_pieces_nonempty(t.drop_last());
    }
}

fn strip_cr_chars(l: &[char]) -> (r: Vec<char>)
    ensures
        r@ == strip_cr(l@),
{
    let mut e = l.len();
    proof {
        assert(l@.take(l@.len() as int) =~= l@);
    }
    while e > 0 && l[e - 1] == '\r'
        invariant
            e <= l@.len(),
            strip_cr(l@) == strip_cr(l@.take(e as int)),
        decreases e,
    {
        proof {
            assert(l@.take(e as int).drop_last() =~= l@.take(e - 1));
        }
        e = e - 1;
    }
    proof {
        assert(l@.take(l@.len() as int) =~= l@);
        if e > 0 {
            assert(l@.take(e as int).last() == l@[e - 1]);
        }
        assert(l@.take(e as int) =~= l@.subrange(0, e as int));
    }
    slice_range(l, 0, e)
}

pub open spec fn lines_view(lines: Seq<Vec<char>>) -> Seq<Seq<char>> {
    lines.map_values(|l: Vec<char>| l@)
}

/// The lines of a text.
fn split_lines(t: &[char]) -> (lines: Vec<Vec<char>>)
    ensures
        lines_view(lines@) == text_lines(t@),
        lines@.len() <= t@.len(),
{
    let mut lines: Vec<Vec<char>> = Vec::new();
    let mut cur: Vec<char> = Vec::new();
    let ghost mut raw: Seq<Seq<char>> = Seq::empty();
    let mut i: usize = 0;
    proof {
        assert(t@.take(0) =~= Seq::<char>::empty());
        assert(newline_pieces(t@.take(0)) =~= raw.push(cur@));
    }
    while i < t.len()
        invariant
            i <= t@.len(),
            newline_pieces(t@.take(i as int)) == raw.push(cur@),
            lines_view(lines@) == raw.map_values(|l: Seq<char>| strip_cr(l)),
            lines@.len() <= i,
            cur@.len() > 0 ==> lines@.len() < i,
        decreases t@.len() - i,
    {
        let c = t[i];
        proof {
            assert(t@.take(i + 1).drop_last() =~= t@.take(i as int));
            assert(t@.take(i + 1).last() == c);
        }
        if c == '\n' {
            let l = strip_cr_chars(cur.as_slice());
            let ghost before = lines@;
            lines.push(l);
            proof {
                assert(lines_view(lines@) =~= lines_view(before).push(strip_cr(cur@)));
                assert(raw.push(cur@).map_values(|l: Seq<char>| strip_cr(l)) =~= raw.map_values(
                    |l: Seq<char>| strip_cr(l),
                ).push(strip_cr(cur@)));
                raw = raw.push(cur@);
            }
            cur = Vec::new();
            proof {
                assert(newline_pieces(t@.take(i + 1)) =~= raw.push(cur@));
            }
        } else {
            cur.push(c);
            proof {
                assert(newline_pieces(t@.take(i + 1)) =~= raw.push(cur@));
            }
        }
        i = i + 1;
    }
    proof {
        assert(t@.take(t@.len() as int) =~= t@);
    }
    if cur.len() > 0 {
        let l = strip_cr_chars(cur.as_slice());
        let ghost before = lines@;
        lines.push(l);
        proof {
            assert(lines_view(lines@) =~= lines_view(before).push(strip_cr(cur@)));
            assert(raw.push(cur@).map_values(|l: Seq<char>| strip_cr(l)) =~= raw.map_values(
                |l: Seq<char>| strip_cr(l),
            ).push(strip_cr(cur@)));
        }
    } else {
        proof {
            assert(raw.push(cur@).drop_last() =~= raw);
        }
    }
    lines
}

/// Blank lines and `@!` column headers carry no data.
pub open spec fn ignorable(line: Seq<char>) -> bool {
    let t = trim(line);
    t.len() == 0 || (t.len() >= 2 && t[0] == '@' && t[1] == '!')
}

/// A lone `q` ends the data.
pub open spec fn quits(line: Seq<char>) -> bool {
    let t = trim(line);
    t.len() == 1 && (t[0] == 'q' || t[0] == 'Q')
}

fn is_ignorable(line: &[char]) -> (r: bool)
    ensures
        r == ignorable(line@),
{
    let t = trimmed(line);
    t.len() == 0 || (t.len() >= 2 && t[0] == '@' && t[1] == '!')
}

fn is_quit(line: &[char]) -> (r: bool)
    ensures
        r == quits(line@),
{
    let t = trimmed(line);
    t.len() == 1 && (t[0] == 'q' || t[0] == 'Q')
}

/// Section order for revisions that write bare `0` terminators without naming what follows.
pub open spec fn order_v33() -> Seq<Seq<char>> {
    seq![
        "BUS"@,
        "LOAD"@,
        "FIXED SHUNT"@,
        "GENERATOR"@,
        "BRANCH"@,
        "TRANSFORMER"@,
        "AREA"@,
        "TWO-TERMINAL DC"@,
        "VSC DC LINE"@,
        "IMPEDANCE CORRECTION"@,
        "MULTI-TERMINAL DC"@,
        "MULTI-SECTION LINE"@,
        "ZONE"@,
        "INTER-AREA TRANSFER"@,
        "OWNER"@,
        "FACTS DEVICE"@,
        "SWITCHED SHUNT"@,
        "GNE DEVICE"@,
        "INDUCTION MACHINE"@,
    ]
}

/// Section order of revision 35.
pub open spec fn order_v35() -> Seq<Seq<char>> {
    seq![
        "SYSTEM-WIDE"@,
        "BUS"@,
        "LOAD"@,
        "FIXED SHUNT"@,
        "GENERATOR"@,
        "BRANCH"@,
        "SYSTEM SWITCHING DEVICE"@,
        "TRANSFORMER"@,
        "AREA"@,
        "TWO-TERMINAL DC"@,
        "VSC DC LINE"@,
        "IMPEDANCE CORRECTION"@,
        "MULTI-TERMINAL DC"@,
        "MULTI-SECTION LINE"@,
        "ZONE"@,
        "INTER-AREA TRANSFER"@,
        "OWNER"@,
        "FACTS DEVICE"@,
        "SWITCHED SHUNT"@,
        "GNE DEVICE"@,
        "INDUCTION MACHINE"@,
        "SUBSTATION"@,
    ]
}

pub open spec fn section_order(rev: int) -> Seq<Seq<char>> {
    if rev >= 35 {
        order_v35()
    } else {
        order_v33()
    }
}

/// The first position of `name` in `order` at or after `i`.
pub open spec fn position_from(order: Seq<Seq<char>>, name: Seq<char>, i: int) -> Option<int>
    decreases order.len() - i,
{
    if i < 0 || i >= order.len() {
        None
    } else if order[i] == name {
        Some(i)
    } else {
        position_from(order, name, i + 1)
    }
}

/// The section that follows `s` in the canonical order for revision `rev`.
pub open spec fn next_positional(rev: int, s: SectionSpec) -> SectionSpec {
    let order = section_order(rev);
    match position_from(order, section_name(s), 0) {
        Some(i) => if i + 1 < order.len() {
            section_named(order[i + 1])
        } else {
            SectionSpec::Unknown
        },
        None => SectionSpec::Unknown,
    }
}

/// The section a terminator with comment `comment` leads into.
pub open spec fn advanced(rev: int, s: SectionSpec, comment: Option<Seq<char>>) -> SectionSpec {
    match comment {
        Some(c) => match marker_name(c) {
            Some(n) => section_named(n),
            None => next_positional(rev, s),
        },
        None => next_positional(rev, s),
    }
}

fn section_order_names(rev: i32) -> (v: Vec<&'static str>)
    ensures
        v@.map_values(|n: &str| n@) == section_order(rev as int),
{
    let v = if rev >= 35 {
        vec![
            "SYSTEM-WIDE",
            "BUS",
            "LOAD",
            "FIXED SHUNT",
            "GENERATOR",
            "BRANCH",
            "SYSTEM SWITCHING DEVICE",
            "TRANSFORMER",
            "AREA",
            "TWO-TERMINAL DC",
            "VSC DC LINE",
            "IMPEDANCE CORRECTION",
            "MULTI-TERMINAL DC",
            "MULTI-SECTION LINE",
            "ZONE",
            "INTER-AREA TRANSFER",
            "OWNER",
            "FACTS DEVICE",
            "SWITCHED SHUNT",
            "GNE DEVICE",
            "INDUCTION MACHINE",
            "SUBSTATION",
        ]
    } else {
        vec![
            "BUS",
            "LOAD",
            "FIXED SHUNT",
            "GENERATOR",
            "BRANCH",
            "TRANSFORMER",
            "AREA",
            "TWO-TERMINAL DC",
            "VSC DC LINE",
            "IMPEDANCE CORRECTION",
            "MULTI-TERMINAL DC",
            "MULTI-SECTION LINE",
            "ZONE",
            "INTER-AREA TRANSFER",
            "OWNER",
            "FACTS DEVICE",
            "SWITCHED SHUNT",
            "GNE DEVICE",
            "INDUCTION MACHINE",
        ]
    };
    proof {
        assert(v@.map_values(|n: &str| n@) =~= section_order(rev as int));
    }
    v
}

fn next_section_positional(rev: i32, section: &Section) -> (s: Section)
    ensures
        s@ == next_positional(rev as int, section@),
{
    let order = section_order_names(rev);
    let ghost names = order@.map_values(|n: &str| n@);
    let name = chars_of(section.name());
    let mut i: usize = 0;
    while i < order.len()
        invariant
            names == order@.map_values(|n: &str| n@),
            names == section_order(rev as int),
            names.len() == order@.len(),
            i <= order@.len(),
            name@ == section_name(section@),
            position_from(names, name@, 0) == position_from(names, name@, i as int),
        decreases order@.len() - i,
    {
        proof {
            assert(names[i as int] == order@[i as int]@);
        }
        if str_eq_chars(order[i], name.as_slice()) {
            if i + 1 < order.len() {
                let next = chars_of(order[i + 1]);
                proof {
                    assert(names[i + 1] == order@[i + 1]@);
                }
                return Section::from_name(next.as_slice());
            }
            return Section::Unknown;
        }
        i = i + 1;
    }
    Section::Unknown
}

fn advance_section(rev: i32, section: &Section, comment: &Option<String>) -> (s: Section)
    ensures
        s@ == advanced(rev as int, section@, opt_string_view(*comment)),
{
    match comment {
        Some(c) => match section_after_marker(c.as_str()) {
            Some(name) => {
                let chars = chars_of(name.as_str());
                Section::from_name(chars.as_slice())
            },
            None => next_section_positional(rev, section),
        },
        None => next_section_positional(rev, section),
    }
}


/// The three free-text lines and the case-wide values that open every raw file.
///
/// `sbase` and `basfrq` are numbers, kept as written.
#[derive(Debug, Clone)]
pub struct CaseHeader {
    pub ic: i32,
    pub sbase: String,
    pub rev: i32,
    pub basfrq: String,
    pub comments: Vec<String>,
}

/// The header as plain values.
pub struct HeaderSpec {
    pub ic: i32,
    pub sbase: Seq<char>,
    pub rev: i32,
    pub basfrq: Seq<char>,
    pub comments: Seq<Seq<char>>,
}

impl View for CaseHeader {
    type V = HeaderSpec;

    open spec fn view(&self) -> HeaderSpec {
        HeaderSpec {
            ic: self.ic,
            sbase: self.sbase@,
            rev: self.rev,
            basfrq: self.basfrq@,
            comments: self.comments@.map_values(|c: String| c@),
        }
    }
}

/// A scanner as the lines it reads, where it stands, the current section, the file's
/// revision and whether a `q` line has ended the data.
pub struct ScannerSpec {
    pub lines: Seq<Seq<char>>,
    pub idx: nat,
    pub section: SectionSpec,
    pub rev: int,
    pub finished: bool,
}

/// Pulls records out of a raw file one at a time, tracking which section each belongs to.
pub struct Scanner {
    lines: Vec<Vec<char>>,
    idx: usize,
    section: Section,
    rev: i32,
    finished: bool,
}

impl View for Scanner {
    type V = ScannerSpec;

    closed spec fn view(&self) -> ScannerSpec {
        ScannerSpec {
            lines: lines_view(self.lines@),
            idx: self.idx as nat,
            section: self.section@,
            rev: self.rev as int,
            finished: self.finished,
        }
    }
}

/// The first line at or after `i` that is not ignorable, or the number of lines.
pub open spec fn first_data_line(lines: Seq<Seq<char>>, i: int) -> int
    decreases lines.len() - i,
{
    if i < 0 || i >= lines.len() || !ignorable(lines[i]) {
        i
    } else {
        first_data_line(lines, i + 1)
    }
}

/// The header read from line `idx` of `lines` and the two free-text lines after it.
pub open spec fn header_at(lines: Seq<Seq<char>>, idx: int) -> HeaderSpec {
    let fields = split_spec(lines[idx]).0;
    HeaderSpec {
        ic: field_int(fields, 0, 0),
        sbase: field_number(fields, 1, "100.0"@),
        rev: field_int(fields, 2, 33),
        basfrq: field_number(fields, 5, "60.0"@),
        comments: lines.subrange(
            idx + 1,
            if idx + 3 < lines.len() {
                idx + 3
            } else {
                lines.len() as int
            },
        ).map_values(|l: Seq<char>| trim(l)),
    }
}

/// What reading the header of `text` gives: the header and the scanner positioned at the first
/// data record, or why the file cannot be read.
pub open spec fn start_spec(text: Seq<char>) -> Result<(HeaderSpec, ScannerSpec), PsseErrorSpec> {
    let lines = text_lines(text);
    let idx = first_data_line(lines, 0);
    if idx >= lines.len() {
        Err(PsseErrorSpec::Truncated { line: (idx + 1) as nat, what: "the case header"@ })
    } else {
        let h = header_at(lines, idx);
        if !supported_revision(h.rev as int) {
            Err(PsseErrorSpec::UnsupportedRevision(h.rev))
        } else {
            Ok(
                (
                    h,
                    ScannerSpec {
                        lines,
                        idx: if idx + 3 < lines.len() {
                            (idx + 3) as nat
                        } else {
                            lines.len()
                        },
                        section: first_section(h.rev as int),
                        rev: h.rev as int,
                        finished: false,
                    },
                ),
            )
        }
    }
}

/// The header is read from the first line that is not a column-header comment: `IC`,
/// `SBASE`, `REV` and `BASFRQ` from its fields 0, 1, 2 and 5 (0, 100, 33 and 60 when absent),
/// with the two lines after it as free text. Revisions 32 to 35 are read and any other is
/// refused; records start three lines after the header line, in the system-wide data for
/// revision 35 and in the bus data before it. A file of column-header comments alone is cut
/// short before its header.
pub proof fn lemma_header_columns(text: Seq<char>)
    ensures
        ({
            let lines = text_lines(text);
            let idx = first_data_line(lines, 0);
            let fields = split_spec(lines[idx]).0;
            &&& idx >= lines.len() ==> start_spec(text) is Err && !(start_spec(text)->Err_0 is UnsupportedRevision)
            &&& idx < lines.len() ==> {
                &&& (start_spec(text) is Ok <==> 32 <= field_int(fields, 2, 33) <= 35)
                &&& (start_spec(text) is Err ==> start_spec(text)->Err_0 == PsseErrorSpec::UnsupportedRevision(
                    field_int(fields, 2, 33),
                ))
                &&& (start_spec(text) matches Ok((h, s)) ==> {
                    &&& h.ic == field_int(fields, 0, 0)
                    &&& h.sbase == field_number(fields, 1, "100.0"@)
                    &&& h.rev == field_int(fields, 2, 33)
                    &&& h.basfrq == field_number(fields, 5, "60.0"@)
                    &&& h.comments.len() == (if idx + 3 <= lines.len() { 2int } else { lines.len() - idx - 1 })
                    &&& forall|k: int| 0 <= k < h.comments.len() ==> #[trigger] h.comments[k] == trim(lines[idx + 1 + k])
                    &&& s.lines == lines
                    &&& s.idx == (if idx + 3 <= lines.len() { idx + 3 } else { lines.len() as int })
                    &&& (h.rev >= 35 ==> s.section == SectionSpec::SystemWide)
                    &&& (h.rev < 35 ==> s.section == SectionSpec::Bus)
                    &&& s.rev == h.rev
                    &&& !s.finished
                })
            }
        }),
{
    let lines = text_lines(text);
    let idx = first_data_line(lines, 0);
    lemma_first_data_line_bounds(lines, 0);
    if idx < lines.len() {
        let h = header_at(lines, idx);
        let end = if idx + 3 < lines.len() { idx + 3 } else { lines.len() as int };
        assert(h.comments.len() == end - idx - 1);
    }
}

/// The section a file of revision `rev` opens with.
pub open spec fn first_section(rev: int) -> SectionSpec {
    if rev >= 35 {
        SectionSpec::SystemWide
    } else {
        SectionSpec::Bus
    }
}

pub open spec fn supported_revision(rev: int) -> bool {
    32 <= rev <= 35
}

/// The scanner state after the next data record, and that record with its section.
///
/// Ignorable lines, records without fields and section markers are passed over; a marker moves
/// the scanner into the section it announces. A `q` line ends the data.
pub open spec fn next_spec(s: ScannerSpec) -> (ScannerSpec, Option<(SectionSpec, RecordSpec)>)
    decreases s.lines.len() - s.idx,
{
    if s.finished || s.idx >= s.lines.len() {
        (s, None)
    } else {
        let line = s.lines[s.idx as int];
        let s1 = ScannerSpec { idx: s.idx + 1, ..s };
        if ignorable(line) {
            next_spec(s1)
        } else if quits(line) {
            (ScannerSpec { finished: true, ..s1 }, None)
        } else {
            let (fields, comment) = split_spec(line);
            if fields.len() == 0 {
                next_spec(s1)
            } else if is_terminator_spec(fields) {
                next_spec(ScannerSpec { section: advanced(s.rev, s.section, comment), ..s1 })
            } else {
                (s1, Some((s.section, RecordSpec { fields, comment, line: s.idx + 1 })))
            }
        }
    }
}

pub open spec fn record_result_view(r: Option<(Section, Record)>) -> Option<(SectionSpec, RecordSpec)> {
    match r {
        Some((s, rec)) => Some((s@, rec@)),
        None => None,
    }
}

pub proof fn lemma_first_data_line_bounds(lines: Seq<Seq<char>>, i: int)
    requires
        0 <= i,
    ensures
        i <= first_data_line(lines, i),
        first_data_line(lines, i) < lines.len() ==> !ignorable(lines[first_data_line(lines, i)]),
        forall|k: int| i <= k < first_data_line(lines, i) && k < lines.len() ==> ignorable(#[trigger] lines[k]),
    decreases lines.len() - i,
{
    if i < lines.len() && ignorable(lines[i]) {
        lemma_first_data_line_bounds(lines, i + 1);
    }
}

/// A record the scanner hands out is the split of the line it names, which is a data line:
/// not blank, not a column-header comment, not the end marker, holding fields and not a
/// section terminator. The scanner stops just past that line.
pub proof fn lemma_next_record_shape(s: ScannerSpec)
    ensures
        ({
            let (s1, found) = next_spec(s);
            found matches Some((sec, rec)) ==> {
                &&& s.idx < rec.line <= s.lines.len()
                &&& s1.idx == rec.line
                &&& !ignorable(s.lines[rec.line - 1])
                &&& !quits(s.lines[rec.line - 1])
                &&& (rec.fields, rec.comment) == split_spec(s.lines[rec.line - 1])
                &&& rec.fields.len() > 0
                &&& !is_terminator_spec(rec.fields)
            }
        }),
    decreases s.lines.len() - s.idx,
{
    if !(s.finished || s.idx >= s.lines.len()) {
        let line = s.lines[s.idx as int];
        let s1 = ScannerSpec { idx: s.idx + 1, ..s };
        if ignorable(line) {
            lemma_next_record_shape(s1);
        } else if !quits(line) {
            let (fields, comment) = split_spec(line);
            if fields.len() == 0 {
                lemma_next_record_shape(s1);
            } else if is_terminator_spec(fields) {
                lemma_next_record_shape(
                    ScannerSpec { section: advanced(s.rev, s.section, comment), ..s1 },
                );
            }
        }
    }
}

/// Successive records come from later and later lines.
pub proof fn lemma_records_rise(s: ScannerSpec)
    ensures
        ({
            let (s1, first) = next_spec(s);
            let (s2, second) = next_spec(s1);
            first matches Some((a, ra)) ==> (second matches Some((b, rb)) ==> ra.line < rb.line)
        }),
{
    let (s1, first) = next_spec(s);
    lemma_next_record_shape(s);
    lemma_next_record_shape(s1);
}

/// Reading a record only moves the scanner forward through the same lines, past the record it
/// returns, and never beyond the end of the file.
pub proof fn lemma_next_spec_advances(s: ScannerSpec)
    ensures
        ({
            let (s1, found) = next_spec(s);
            &&& s1.lines == s.lines
            &&& s1.rev == s.rev
            &&& s1.idx >= s.idx
            &&& (s.idx <= s.lines.len() ==> s1.idx <= s.lines.len())
            &&& (found is Some ==> s.idx < s1.idx <= s.lines.len())
        }),
    decreases s.lines.len() - s.idx,
{
    if !(s.finished || s.idx >= s.lines.len()) {
        let line = s.lines[s.idx as int];
        let s1 = ScannerSpec { idx: s.idx + 1, ..s };
        if ignorable(line) {
            lemma_next_spec_advances(s1);
        } else if !quits(line) {
            let (fields, comment) = split_spec(line);
            if fields.len() == 0 {
                lemma_next_spec_advances(s1);
            } else if is_terminator_spec(fields) {
                lemma_next_spec_advances(
                    ScannerSpec { section: advanced(s.rev, s.section, comment), ..s1 },
                );
            }
        }
    }
}

/// What `Scanner::continuation` does from state `s`: the state after the next record, and that
/// record when it belongs to `section`.
pub open spec fn continuation_spec(s: ScannerSpec, section: SectionSpec, what: Seq<char>) -> (
    ScannerSpec,
    Result<RecordSpec, PsseErrorSpec>,
) {
    let (after, found) = next_spec(s);
    match found {
        Some((sec, rec)) => if sec == section {
            (after, Ok(rec))
        } else {
            (after, Err(PsseErrorSpec::Truncated { line: rec.line, what }))
        },
        None => (after, Err(PsseErrorSpec::Truncated { line: after.lines.len(), what })),
    }
}

impl Scanner {
    /// The revision of the file being read.
    pub fn revision(&self) -> (rev: i32)
        ensures
            rev as int == self@.rev,
    {
        self.rev
    }

    /// Read the file header and position the scanner at the first data record.
    pub fn new(text: &str) -> (r: Result<(CaseHeader, Scanner), PsseError>)
        requires
            text@.len() < usize::MAX,
        ensures
            text_lines(text@).len() <= text@.len(),
            match r {
                Ok((h, sc)) => start_spec(text@) == Ok::<(HeaderSpec, ScannerSpec), PsseErrorSpec>(
                    (h@, sc@),
                ),
                Err(e) => start_spec(text@) == Err::<(HeaderSpec, ScannerSpec), PsseErrorSpec>(e@),
            },
    {
        let chars = chars_of(text);
        let lines = split_lines(chars.as_slice());
        let ghost lv = lines_view(lines@);
        let mut idx: usize = 0;
        // `@!` lines are column-header comments; they precede the header record too.
        while idx < lines.len() && is_ignorable(lines[idx].as_slice())
            invariant
                lv == lines_view(lines@),
                idx <= lines@.len(),
                first_data_line(lv, 0) == first_data_line(lv, idx as int),
            decreases lines@.len() - idx,
        {
            proof {
                assert(lv[idx as int] == lines@[idx as int]@);
            }
            idx = idx + 1;
        }
        proof {
            if idx < lines@.len() {
                assert(lv[idx as int] == lines@[idx as int]@);
            }
        }
        if idx >= lines.len() {
            let what = chars_of("the case header");
            return Err(PsseError::Truncated { line: idx + 1, what: string_of(what.as_slice()) });
        }
        let (fields, _) = split_chars(lines[idx].as_slice());
        let header_rec = Record { fields, comment: None, line: idx + 1 };
        let rev = header_rec.opt_i32(2, 33);
        if !(32 <= rev && rev <= 35) {
            return Err(PsseError::UnsupportedRevision(rev));
        }
        let sbase = header_rec.opt_number(1, "100.0");
        let basfrq = header_rec.opt_number(5, "60.0");
        let mut comments: Vec<String> = Vec::new();
        let mut k = idx + 1;
        proof {
            assert(lv.subrange(idx + 1, k as int) =~= Seq::<Seq<char>>::empty());
        }
        let stop = if lines.len() - idx > 3 {
            idx + 3
        } else {
            lines.len()
        };
        while k < stop
            invariant
                lv == lines_view(lines@),
                idx < lines@.len(),
                idx + 1 <= k <= stop,
                stop == if idx + 3 < lines@.len() {
                    idx + 3
                } else {
                    lines@.len() as int
                },
                comments@.map_values(|c: String| c@) == lv.subrange(idx + 1, k as int).map_values(
                    |l: Seq<char>| trim(l),
                ),
            decreases stop - k,
        {
            let t = trimmed(lines[k].as_slice());
            let ghost before = comments@;
            comments.push(string_of(t.as_slice()));
            proof {
                assert(lv[k as int] == lines@[k as int]@);
                assert(comments@.map_values(|c: String| c@) =~= before.map_values(|c: String| c@).push(
                    trim(lv[k as int]),
                ));
                assert(lv.subrange(idx + 1, k + 1) =~= lv.subrange(idx + 1, k as int).push(
                    lv[k as int],
                ));
                assert(lv.subrange(idx + 1, k + 1).map_values(|l: Seq<char>| trim(l))
                    =~= lv.subrange(idx + 1, k as int).map_values(|l: Seq<char>| trim(l)).push(
                    trim(lv[k as int]),
                ));
            }
            k = k + 1;
        }

        let header = CaseHeader {
            ic: header_rec.opt_i32(0, 0),
            sbase: string_of(chars_of(sbase).as_slice()),
            rev,
            basfrq: string_of(chars_of(basfrq).as_slice()),
            comments,
        };
        let section = if rev >= 35 {
            Section::SystemWide
        } else {
            Section::Bus
        };
        Ok((header, Scanner { lines, idx: stop, section, rev, finished: false }))
    }

    /// The next data record, or `None` at end of file.
    ///
    /// Section markers are consumed internally; callers only ever see data.
    pub fn next_record(&mut self) -> (r: Result<Option<(Section, Record)>, PsseError>)
        ensures
            r matches Ok(found) && (final(self)@, record_result_view(found)) == next_spec(old(self)@),
    {
        let ghost start = self@;
        while !self.finished && self.idx < self.lines.len()
            invariant
                start == old(self)@,
                next_spec(start) == next_spec(self@),
            decreases self.lines@.len() - self.idx,
        {
            let ghost here = self@;
            let line_no = self.idx + 1;
            let i = self.idx;
            self.idx = self.idx + 1;
            let ghost line = here.lines[i as int];
            proof {
                assert(line == self.lines@[i as int]@);
                assert(self@ == ScannerSpec { idx: here.idx + 1, ..here });
            }
            if is_ignorable(self.lines[i].as_slice()) {
                continue;
            }
            if is_quit(self.lines[i].as_slice()) {
                self.finished = true;
                proof {
                    assert(self@ == ScannerSpec { finished: true, idx: here.idx + 1, ..here });
                    assert(next_spec(here) == (self@, None::<(SectionSpec, RecordSpec)>));
                    assert(next_spec(self@) == (self@, None::<(SectionSpec, RecordSpec)>));
                }
                return Ok(None);
            }
            let (fields, comment) = split_chars(self.lines[i].as_slice());
            let record = Record { fields, comment, line: line_no };
            proof {
                assert(record@.fields == split_spec(line).0);
                assert(record@.comment == split_spec(line).1);
            }
            if record.fields.len() == 0 {
                continue;
            }
            if record.is_terminator() {
                self.section = advance_section(self.rev, &self.section, &record.comment);
                proof {
                    assert(self@ == ScannerSpec {
                        section: advanced(here.rev, here.section, split_spec(line).1),
                        idx: here.idx + 1,
                        ..here
                    });
                }
                continue;
            }
            let sec = self.section.duplicate();
            proof {
                assert(record@ == RecordSpec {
                    fields: split_spec(line).0,
                    comment: split_spec(line).1,
                    line: here.idx + 1,
                });
                assert(sec@ == here.section);
                assert(next_spec(here) == (self@, Some((here.section, record@))));
                assert(record_result_view(Some((sec, record))) == Some((here.section, record@)));
                assert(next_spec(start) == (self@, record_result_view(Some((sec, record)))));
            }
            return Ok(Some((sec, record)));
        }
        proof {
            assert(next_spec(self@) == (self@, None::<(SectionSpec, RecordSpec)>));
        }
        Ok(None)
    }

    /// Pull a continuation line of a multi-line record, such as a transformer's later windings.
    pub fn continuation(&mut self, section: &Section, what: &str) -> (r: Result<Record, PsseError>)
        ensures
            ({
                let (after, res) = continuation_spec(old(self)@, section@, what@);
                &&& final(self)@ == after
                &&& match r {
                    Ok(rec) => res == Ok::<RecordSpec, PsseErrorSpec>(rec@),
                    Err(e) => res == Err::<RecordSpec, PsseErrorSpec>(e@),
                }
            }),
    {
        match self.next_record()? {
            Some((s, rec)) => {
                if s.same_as(section) {
                    Ok(rec)
                } else {
                    Err(PsseError::Truncated { line: rec.line, what: string_of(chars_of(what).as_slice()) })
                }
            },
            None => Err(
                PsseError::Truncated { line: self.lines.len(), what: string_of(chars_of(what).as_slice()) },
            ),
        }
    }
}

} // verus!
