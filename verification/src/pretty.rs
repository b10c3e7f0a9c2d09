//! Document building for the pretty-printer that renders compiler-core
//! terms. The surrounding printer belongs to the compiler; the core keeps
//! the precedence-driven parenthesiser, the literal formatter and the
//! pattern formatter, building documents whose flat text is specified
//! exactly.

use vstd::prelude::*;
use vstd::std_specs::iter::IteratorSpec;

verus! {

broadcast use vstd::string::group_string_axioms;

/// A layout document: text and breakable structure. `flat_text` gives the
/// text of the single-line layout, which is what the contracts below pin
/// down.
pub enum Doc {
    Nil,
    Text(String),
    Character(char),
    Space,
    Newline,
    Append(Box<Doc>, Box<Doc>),
    Group(Box<Doc>),
    Nest(usize, Box<Doc>),
}

/// The document's text when laid out on a single line: a space for every
/// breakable space or line break, grouping and nesting invisible.
pub open spec fn flat_text(d: Doc) -> Seq<char>
    decreases d,
{
    match d {
        Doc::Nil => Seq::empty(),
        Doc::Text(s) => s@,
        Doc::Character(c) => seq![c],
        Doc::Space => seq![' '],
        Doc::Newline => seq![' '],
        Doc::Append(a, b) => flat_text(*a) + flat_text(*b),
        Doc::Group(a) => flat_text(*a),
        Doc::Nest(_, a) => flat_text(*a),
    }
}

impl Doc {
    /// Join two documents.
    pub fn append(self, other: Doc) -> (r: Doc)
        ensures
            flat_text(r) == flat_text(self) + flat_text(other),
    {
        Doc::Append(Box::new(self), Box::new(other))
    }

    /// A text document.
    pub fn text(s: &str) -> (r: Doc)
        ensures
            flat_text(r) == s@,
    {
        Doc::Text(s.to_owned())
    }

    /// Wrap in a group: laid out flat where it fits.
    pub fn group(self) -> (r: Doc)
        ensures
            flat_text(r) == flat_text(self),
    {
        Doc::Group(Box::new(self))
    }

    /// Indent by the given depth at line breaks.
    pub fn nest(self, depth: usize) -> (r: Doc)
        ensures
            flat_text(r) == flat_text(self),
    {
        Doc::Nest(depth, Box::new(self))
    }
}

impl Doc {
    /// Render the single-line layout: exactly `flat_text`.
    pub fn render_flat(&self) -> (s: String)
        ensures
            s@ == flat_text(*self),
        decreases *self,
    {
        match self {
            Doc::Nil => String::new(),
            Doc::Text(t) => t.clone(),
            Doc::Character(c) => {
                let mut s = String::new();
                push_char(&mut s, *c);
                proof {
                    assert(s@ =~= flat_text(*self));
                }
                s
            }
            Doc::Space => {
                let mut s = String::new();
                push_char(&mut s, ' ');
                proof {
                    assert(s@ =~= flat_text(*self));
                }
                s
            }
            Doc::Newline => {
                let mut s = String::new();
                push_char(&mut s, ' ');
                proof {
                    assert(s@ =~= flat_text(*self));
                }
                s
            }
            Doc::Append(a, b) => {
                let mut s = a.render_flat();
                let t = b.render_flat();
                s.append(t.as_str());
                s
            }
            Doc::Group(a) => a.render_flat(),
            Doc::Nest(_, a) => a.render_flat(),
        }
    }
}

impl Clone for Doc {
    fn clone(&self) -> (r: Doc)
        ensures
            r == *self,
        decreases *self,
    {
        match self {
            Doc::Nil => Doc::Nil,
            Doc::Text(s) => Doc::Text(s.clone()),
            Doc::Character(c) => Doc::Character(*c),
            Doc::Space => Doc::Space,
            Doc::Newline => Doc::Newline,
            Doc::Append(a, b) => Doc::Append(Box::new((**a).clone()), Box::new((**b).clone())),
            Doc::Group(a) => Doc::Group(Box::new((**a).clone())),
            Doc::Nest(n, a) => Doc::Nest(*n, Box::new((**a).clone())),
        }
    }
}

/// The decimal digits of a number, most significant first.
pub open spec fn dec_digits(n: nat) -> Seq<char>
    decreases n,
{
    if n < 10 {
        seq![digit_char(n)]
    } else {
        dec_digits(n / 10).push(digit_char(n % 10))
    }
}

pub open spec fn digit_char(d: nat) -> char {
    if d == 0 {
        '0'
    } else if d == 1 {
        '1'
    } else if d == 2 {
        '2'
    } else if d == 3 {
        '3'
    } else if d == 4 {
        '4'
    } else if d == 5 {
        '5'
    } else if d == 6 {
        '6'
    } else if d == 7 {
        '7'
    } else if d == 8 {
        '8'
    } else {
        '9'
    }
}

/// The decimal text of a signed number: a minus sign, then the digits of
/// the magnitude.
pub open spec fn int_text(n: int) -> Seq<char> {
    if n < 0 {
        seq!['-'] + dec_digits((-n) as nat)
    } else {
        dec_digits(n as nat)
    }
}

/// Append one character to a string. Relies on String::push, for which the
/// standard specification set has no contract.
#[verifier::external_body]
pub(crate) fn push_char(s: &mut String, c: char)
    ensures
        final(s)@ == old(s)@.push(c),
{
    s.push(c);
}

fn digit_to_char(d: u64) -> (c: char)
    requires
        d < 10,
    ensures
        c == digit_char(d as nat),
{
    if d == 0 {
        '0'
    } else if d == 1 {
        '1'
    } else if d == 2 {
        '2'
    } else if d == 3 {
        '3'
    } else if d == 4 {
        '4'
    } else if d == 5 {
        '5'
    } else if d == 6 {
        '6'
    } else if d == 7 {
        '7'
    } else if d == 8 {
        '8'
    } else {
        '9'
    }
}

/// The decimal text of an unsigned number.
pub fn u64_text(n: u64) -> (s: String)
    ensures
        s@ == dec_digits(n as nat),
    decreases n,
{
    if n < 10 {
        let mut s = String::new();
        push_char(&mut s, digit_to_char(n));
        proof {
            assert(s@ =~= dec_digits(n as nat));
        }
        s
    } else {
        let mut s = u64_text(n / 10);
        push_char(&mut s, digit_to_char(n % 10));
        proof {
            assert(s@ =~= dec_digits(n as nat));
        }
        s
    }
}

/// The decimal text of a signed number.
pub fn i64_text(n: i64) -> (s: String)
    ensures
        s@ == int_text(n as int),
{
    if n < 0 {
        let magnitude = ((-(n as i128)) as u64);
        let mut s = String::new();
        push_char(&mut s, '-');
        let digits = u64_text(magnitude);
        s.append(digits.as_str());
        proof {
            assert(s@ =~= int_text(n as int));
        }
        s
    } else {
        u64_text(n as u64)
    }
}

/// The hexadecimal digits of a number, most significant first, in lower
/// case.
pub open spec fn hex_digits(n: nat) -> Seq<char>
    decreases n,
{
    if n < 16 {
        seq![hex_digit_char(n)]
    } else {
        hex_digits(n / 16).push(hex_digit_char(n % 16))
    }
}

pub open spec fn hex_digit_char(d: nat) -> char {
    if d < 10 {
        digit_char(d)
    } else if d == 10 {
        'a'
    } else if d == 11 {
        'b'
    } else if d == 12 {
        'c'
    } else if d == 13 {
        'd'
    } else if d == 14 {
        'e'
    } else {
        'f'
    }
}

fn hex_digit_to_char(d: u32) -> (c: char)
    requires
        d < 16,
    ensures
        c == hex_digit_char(d as nat),
{
    if d < 10 {
        digit_to_char(d as u64)
    } else if d == 10 {
        'a'
    } else if d == 11 {
        'b'
    } else if d == 12 {
        'c'
    } else if d == 13 {
        'd'
    } else if d == 14 {
        'e'
    } else {
        'f'
    }
}

/// The hexadecimal text of a number.
pub fn u32_hex_text(n: u32) -> (s: String)
    ensures
        s@ == hex_digits(n as nat),
    decreases n,
{
    if n < 16 {
        let mut s = String::new();
        push_char(&mut s, hex_digit_to_char(n));
        proof {
            assert(s@ =~= hex_digits(n as nat));
        }
        s
    } else {
        let mut s = u32_hex_text(n / 16);
        push_char(&mut s, hex_digit_to_char(n % 16));
        proof {
            assert(s@ =~= hex_digits(n as nat));
        }
        s
    }
}

/// How one character renders inside a quoted literal: a backslash, the
/// quote itself and the newline, carriage-return and tab controls get their
/// usual escapes, NUL renders as a backslash and zero, every other control
/// character (and delete) as a braced hexadecimal escape, and everything
/// else as itself.
pub open spec fn escape_char(c: char, quote: char) -> Seq<char> {
    if c == '\\' {
        seq!['\\', '\\']
    } else if c == quote {
        seq!['\\', quote]
    } else if c == '\n' {
        seq!['\\', 'n']
    } else if c == '\r' {
        seq!['\\', 'r']
    } else if c == '\t' {
        seq!['\\', 't']
    } else if c == '\0' {
        seq!['\\', '0']
    } else if (c as u32) < 32 || c as u32 == 127 {
        seq!['\\', 'u', '{'] + hex_digits(c as u32 as nat) + seq!['}']
    } else {
        seq![c]
    }
}

/// A whole text, escaped character for character.
pub open spec fn escape_text(s: Seq<char>, quote: char) -> Seq<char>
    decreases s.len(),
{
    if s.len() == 0 {
        Seq::empty()
    } else {
        escape_char(s[0], quote) + escape_text(s.drop_first(), quote)
    }
}

proof fn lemma_escape_text_snoc(s: Seq<char>, c: char, quote: char)
    ensures
        escape_text(s.push(c), quote) == escape_text(s, quote) + escape_char(c, quote),
    decreases s.len(),
{
    if s.len() == 0 {
        assert(s.push(c).drop_first() =~= Seq::<char>::empty());
        assert(s.push(c)[0] == c);
        assert(escape_text(s.push(c).drop_first(), quote) == Seq::<char>::empty());
        assert(escape_text(s, quote) == Seq::<char>::empty());
        assert(escape_text(s.push(c), quote) =~= escape_text(s, quote) + escape_char(c, quote));
    } else {
        lemma_escape_text_snoc(s.drop_first(), c, quote);
        assert(s.push(c).drop_first() =~= s.drop_first().push(c));
        assert(s.push(c)[0] == s[0]);
        assert(escape_text(s.push(c), quote) =~= escape_text(s, quote) + escape_char(c, quote));
    }
}

/// Append one character's escaped rendering.
fn append_escape(out: &mut String, c: char, quote: char)
    ensures
        final(out)@ == old(out)@ + escape_char(c, quote),
{
    if c == '\\' {
        push_char(out, '\\');
        push_char(out, '\\');
        proof {
            assert(out@ =~= old(out)@ + escape_char(c, quote));
        }
    } else if c == quote {
        push_char(out, '\\');
        push_char(out, quote);
        proof {
            assert(out@ =~= old(out)@ + escape_char(c, quote));
        }
    } else if c == '\n' {
        push_char(out, '\\');
        push_char(out, 'n');
        proof {
            assert(out@ =~= old(out)@ + escape_char(c, quote));
        }
    } else if c == '\r' {
        push_char(out, '\\');
        push_char(out, 'r');
        proof {
            assert(out@ =~= old(out)@ + escape_char(c, quote));
        }
    } else if c == '\t' {
        push_char(out, '\\');
        push_char(out, 't');
        proof {
            assert(out@ =~= old(out)@ + escape_char(c, quote));
        }
    } else if c == '\0' {
        push_char(out, '\\');
        push_char(out, '0');
        proof {
            assert(out@ =~= old(out)@ + escape_char(c, quote));
        }
    } else {
        let code = c as u32;
        if code < 32 || code == 127 {
            push_char(out, '\\');
            push_char(out, 'u');
            push_char(out, '{');
            let h = u32_hex_text(code);
            out.append(h.as_str());
            push_char(out, '}');
            proof {
                assert(out@ =~= old(out)@ + escape_char(c, quote));
            }
        } else {
            push_char(out, c);
            proof {
                assert(out@ =~= old(out)@ + escape_char(c, quote));
            }
        }
    }
}

/// A whole text, escaped character for character.
pub fn escape_string(s: &str, quote: char) -> (out: String)
    ensures
        out@ == escape_text(s@, quote),
{
    let mut out = String::new();
    let mut it = s.chars();
    let ghost mut done: Seq<char> = Seq::empty();
    loop
        invariant
            done + it.remaining() == s@,
            out@ == escape_text(done, quote),
            it.decrease() is Some,
        decreases it.decrease()->0,
    {
        let ghost prev = it;
        match it.next() {
            Some(c) => {
                proof {
                    assert(prev.remaining()[0] == c);
                    lemma_escape_text_snoc(done, c, quote);
                    done = done.push(c);
                    assert(done + it.remaining() =~= s@);
                }
                append_escape(&mut out, c, quote);
            }
            None => {
                proof {
                    assert(done =~= s@);
                }
                return out;
            }
        }
    }
}

/// Operator precedence of the term being printed: whether it stands as a
/// function argument, where a compound term needs parentheses.
#[derive(Clone, Copy)]
pub enum Prec {
    Top,
    Arg,
}

impl Prec {
    /// Parenthesise the document when it stands in argument position.
    pub fn enclose(&self, doc: Doc) -> (r: Doc)
        ensures
            flat_text(r) == if *self is Arg {
                seq!['('] + flat_text(doc) + seq![')']
            } else {
                flat_text(doc)
            },
    {
        match *self {
            Prec::Arg => {
                proof {
                    reveal_strlit("(");
                    reveal_strlit(")");
                    assert("("@ =~= seq!['(']);
                    assert(")"@ =~= seq![')']);
                }
                Doc::text("(").append(doc).append(Doc::text(")"))
            }
            Prec::Top => doc,
        }
    }
}

/// A literal of the surface language, as the compiler core carries it. The
/// core does not compute with floats, so a float literal carries its
/// written form.
pub enum Literal {
    Byte(u8),
    Char(char),
    Float(String),
    Int(i64),
    String(String),
}

/// The flat text of a formatted literal: a byte as its digits followed by
/// `b`, a character in single quotes, a float as written, an integer in
/// decimal, a string in double quotes; quoted contents are escaped, see
/// [`escape_char`].
pub open spec fn literal_text(l: Literal) -> Seq<char> {
    match l {
        Literal::Byte(b) => dec_digits(b as nat).push('b'),
        Literal::Char(c) => seq!['\''] + escape_char(c, '\'') + seq!['\''],
        Literal::Float(f) => f@,
        Literal::Int(i) => int_text(i as int),
        Literal::String(s) => seq!['"'] + escape_text(s@, '"') + seq!['"'],
    }
}

/// Format a literal.
pub fn pretty_literal(l: &Literal) -> (r: Doc)
    ensures
        flat_text(r) == literal_text(*l),
{
    match l {
        Literal::Byte(b) => {
            let mut s = u64_text(*b as u64);
            push_char(&mut s, 'b');
            let r = Doc::Text(s);
            proof {
                assert(flat_text(r) =~= literal_text(*l));
            }
            r
        }
        Literal::Char(c) => {
            let mut t = String::new();
            push_char(&mut t, '\'');
            append_escape(&mut t, *c, '\'');
            push_char(&mut t, '\'');
            let r = Doc::Text(t);
            proof {
                assert(flat_text(r) =~= literal_text(*l));
            }
            r
        }
        Literal::Float(f) => Doc::Text(f.clone()),
        Literal::Int(i) => Doc::Text(i64_text(*i)),
        Literal::String(s) => {
            let mut t = String::new();
            push_char(&mut t, '"');
            let escaped = escape_string(s.as_str(), '"');
            t.append(escaped.as_str());
            push_char(&mut t, '"');
            let r = Doc::Text(t);
            proof {
                assert(flat_text(r) =~= literal_text(*l));
            }
            r
        }
    }
}


/// A pattern of the compiler core's intermediate representation: a
/// constructor applied to bound names, a plain binding, a record pattern
/// with optional renamings, or a literal.
pub enum Pattern {
    Constructor(String, Vec<String>),
    Ident(String),
    Record(Vec<(String, Option<String>)>),
    Literal(Literal),
}

/// The flat text of constructor arguments: one space before each.
pub open spec fn args_text(args: Seq<String>) -> Seq<char>
    decreases args.len(),
{
    if args.len() == 0 {
        Seq::empty()
    } else {
        seq![' '] + args[0]@ + args_text(args.drop_first())
    }
}

/// The flat text of one record-pattern field: a space, the field name, and
/// `= name` when the field is bound under another name.
pub open spec fn field_text(f: (String, Option<String>)) -> Seq<char> {
    seq![' '] + f.0@ + (match f.1 {
        Some(v) => seq!['='] + seq![' '] + v@,
        None => Seq::empty(),
    })
}

/// The flat text of a record pattern's fields, separated by commas.
pub open spec fn record_text(fields: Seq<(String, Option<String>)>) -> Seq<char>
    decreases fields.len(),
{
    if fields.len() == 0 {
        Seq::empty()
    } else if fields.len() == 1 {
        field_text(fields[0])
    } else {
        field_text(fields[0]) + seq![','] + record_text(fields.drop_first())
    }
}

/// The flat text of a formatted pattern.
pub open spec fn pattern_text(p: Pattern) -> Seq<char> {
    match p {
        Pattern::Constructor(ctor, args) => ctor@ + args_text(args@),
        Pattern::Ident(id) => id@,
        Pattern::Record(fields) => seq!['{'] + record_text(fields@) + seq![' '] + seq!['}'],
        Pattern::Literal(l) => literal_text(l),
    }
}

proof fn lemma_args_text_snoc(args: Seq<String>, k: int)
    requires
        0 <= k < args.len(),
    ensures
        args_text(args.take(k + 1)) == args_text(args.take(k)) + seq![' '] + args[k]@,
    decreases k,
{
    if k == 0 {
        assert(args.take(1).drop_first() =~= args.take(0));
        assert(args.take(1)[0] == args[0]);
        assert(args_text(args.take(1)) =~= args_text(args.take(0)) + seq![' '] + args[0]@);
    } else {
        lemma_args_text_snoc(args.drop_first(), k - 1);
        assert(args.take(k + 1).drop_first() =~= args.drop_first().take(k));
        assert(args.take(k).drop_first() =~= args.drop_first().take(k - 1));
        assert(args.take(k + 1)[0] == args[0]);
        assert(args.take(k)[0] == args[0]);
        assert(args.drop_first()[k - 1] == args[k]);
        assert(args_text(args.take(k + 1)) =~= args_text(args.take(k)) + seq![' '] + args[k]@);
    }
}

proof fn lemma_record_text_snoc(fields: Seq<(String, Option<String>)>, k: int)
    requires
        1 <= k < fields.len(),
    ensures
        record_text(fields.take(k + 1)) == record_text(fields.take(k)) + seq![','] + field_text(
            fields[k],
        ),
    decreases k,
{
    if k == 1 {
        assert(fields.take(2).drop_first() =~= fields.drop_first().take(1));
        assert(fields.take(2)[0] == fields[0]);
        assert(fields.drop_first().take(1)[0] == fields[1]);
        assert(fields.take(1)[0] == fields[0]);
        assert(record_text(fields.drop_first().take(1)) == field_text(fields[1]));
        assert(record_text(fields.take(2)) =~= record_text(fields.take(1)) + seq![',']
            + field_text(fields[1]));
    } else {
        lemma_record_text_snoc(fields.drop_first(), k - 1);
        assert(fields.take(k + 1).drop_first() =~= fields.drop_first().take(k));
        assert(fields.take(k).drop_first() =~= fields.drop_first().take(k - 1));
        assert(fields.take(k + 1)[0] == fields[0]);
        assert(fields.take(k)[0] == fields[0]);
        assert(fields.drop_first()[k - 1] == fields[k]);
        assert(record_text(fields.take(k + 1)) =~= record_text(fields.take(k)) + seq![',']
            + field_text(fields[k]));
    }
}

impl Pattern {
    /// Format a pattern: a constructor with its bound names, a binding, a
    /// record with its fields between braces, or a literal.
    pub fn pretty(&self) -> (r: Doc)
        ensures
            flat_text(r) == pattern_text(*self),
    {
        match self {
            Pattern::Constructor(ctor, args) => {
                let mut doc = Doc::Text(ctor.clone());
                let n = args.len();
                let mut k: usize = 0;
                while k < n
                    invariant
                        n == args@.len(),
                        k <= n,
                        flat_text(doc) == ctor@ + args_text(args@.take(k as int)),
                    decreases n - k,
                {
                    proof {
                        lemma_args_text_snoc(args@, k as int);
                    }
                    doc = doc.append(Doc::Space).append(Doc::Text(args[k].clone()));
                    proof {
                        assert(flat_text(doc) =~= ctor@ + args_text(args@.take(k + 1)));
                    }
                    k += 1;
                }
                proof {
                    assert(args@.take(n as int) =~= args@);
                }
                doc.group()
            }
            Pattern::Ident(id) => Doc::Text(id.clone()),
            Pattern::Record(fields) => {
                let mut doc = Doc::Character('{');
                let ghost open_text = flat_text(doc);
                let n = fields.len();
                let mut k: usize = 0;
                while k < n
                    invariant
                        n == fields@.len(),
                        k <= n,
                        open_text == seq!['{'],
                        flat_text(doc) == open_text + record_text(fields@.take(k as int)),
                    decreases n - k,
                {
                    if k > 0 {
                        doc = doc.append(Doc::Character(','));
                    }
                    let item = Doc::Space.append(Doc::Text(fields[k].0.clone()));
                    let item = match &fields[k].1 {
                        Some(v) => item.append(Doc::Character('=')).append(Doc::Space).append(
                            Doc::Text(v.clone()),
                        ),
                        None => item,
                    };
                    proof {
                        assert(flat_text(item) =~= field_text(fields@[k as int]));
                        if k > 0 {
                            lemma_record_text_snoc(fields@, k as int);
                        } else {
                            assert(fields@.take(1)[0] == fields@[0]);
                            assert(record_text(fields@.take(1)) == field_text(fields@[0]));
                        }
                    }
                    doc = doc.append(item);
                    proof {
                        assert(flat_text(doc) =~= open_text + record_text(
                            fields@.take(k + 1),
                        ));
                    }
                    k += 1;
                }
                proof {
                    assert(fields@.take(n as int) =~= fields@);
                }
                let r = doc.nest(4).append(Doc::Space).append(Doc::Character('}')).group();
                proof {
                    assert(flat_text(r) =~= pattern_text(*self));
                }
                r
            }
            Pattern::Literal(l) => pretty_literal(l),
        }
    }
}

} // verus!
