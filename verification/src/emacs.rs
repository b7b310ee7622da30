//! The Emacs server protocol: how an expression is quoted into a request
//! line, and how the server's reply is read back.

use crate::text::{debug_string, debug_text, has_prefix, push_char, range_has_prefix};
use std::path::{Path, PathBuf};
use std::time::Duration;
use vstd::prelude::*;

verus! {

/// I/O failures are carried through the library without being inspected.
#[verifier::external_type_specification]
#[verifier::external_body]
pub struct ExIoError(std::io::Error);

/// Borrowed paths are carried through the library without being inspected.
#[verifier::external_type_specification]
#[verifier::external_body]
pub struct ExPath(Path);

/// A connection target for the Emacs server: its socket and the bound on
/// each socket operation.
pub struct EmacsClient {
    socket_path: PathBuf,
    timeout: Duration,
}

/// Why an evaluation in Emacs failed.
#[derive(Debug)]
pub enum EmacsError {
    /// The socket could not be used.
    Io(std::io::Error),
    /// Emacs reported an error while evaluating the expression.
    Eval(String),
    /// The server's reply does not follow the protocol.
    Protocol(String),
}

impl From<std::io::Error> for EmacsError {
    fn from(err: std::io::Error) -> (r: Self) {
        EmacsError::Io(err)
    }
}

/// The text of an I/O error, by its `Display`. Nothing is claimed of the
/// text: the system's error descriptions can depend on the locale.
#[verifier::external_body]
fn io_error_text(e: &std::io::Error) -> String {
    e.to_string()
}

impl EmacsError {
    /// The message that reports this error; for an I/O failure, the
    /// failure's own description.
    pub fn message(&self) -> (r: String)
        ensures
            match self {
                EmacsError::Eval(m) => r@ == "eval error: "@ + m@,
                EmacsError::Protocol(m) => r@ == "protocol error: "@ + m@,
                EmacsError::Io(_) => true,
            },
    {
        match self {
            EmacsError::Io(e) => io_error_text(e),
            EmacsError::Eval(m) => String::from_str("eval error: ").concat(m.as_str()),
            EmacsError::Protocol(m) => String::from_str("protocol error: ").concat(m.as_str()),
        }
    }
}

impl vstd::std_specs::convert::FromSpecImpl<std::io::Error> for EmacsError {
    open spec fn obeys_from_spec() -> bool {
        true
    }

    open spec fn from_spec(v: std::io::Error) -> EmacsError {
        EmacsError::Io(v)
    }
}

/// The owned path that `Path::to_path_buf` makes of a borrowed one; it
/// depends on that path alone.
pub uninterp spec fn owned_copy(p: &Path) -> PathBuf;

/// An owned copy of a path, by `Path::to_path_buf`; claims the result is
/// `owned_copy` of the path.
#[verifier::external_body]
fn owned_path(p: &Path) -> (r: PathBuf)
    ensures
        r == owned_copy(p),
{
    p.to_path_buf()
}

/// How one character travels to the server: space as `&_`, newline as
/// `&n`, `&` as `&&`, any other character as itself.
pub open spec fn escape_char(c: char) -> Seq<char> {
    if c == ' ' {
        seq!['&', '_']
    } else if c == '\n' {
        seq!['&', 'n']
    } else if c == '&' {
        seq!['&', '&']
    } else {
        seq![c]
    }
}

/// Every character of `s` escaped, in order.
pub open spec fn escape_all(s: Seq<char>) -> Seq<char>
    decreases s.len(),
{
    if s.len() == 0 {
        seq![]
    } else {
        escape_all(s.drop_last()) + escape_char(s.last())
    }
}

/// The quoted form of an argument: every character escaped, and an initial
/// `-` written `&-`.
pub open spec fn quoted(s: Seq<char>) -> Seq<char> {
    if s.len() > 0 && s[0] == '-' {
        seq!['&', '-'] + escape_all(s.drop_first())
    } else {
        escape_all(s)
    }
}

/// The character that an escape `&c` stands for.
pub open spec fn unescape_char(c: char) -> char {
    if c == '_' {
        ' '
    } else if c == 'n' {
        '\n'
    } else {
        c
    }
}

/// The argument that a quoted text stands for, or `None` where the text
/// ends inside an escape.
pub open spec fn unquoted(s: Seq<char>) -> Option<Seq<char>>
    decreases s.len(),
{
    if s.len() == 0 {
        Some(seq![])
    } else if s[0] == '&' {
        if s.len() == 1 {
            None
        } else {
            match unquoted(s.skip(2)) {
                Some(r) => Some(seq![unescape_char(s[1])] + r),
                None => None,
            }
        }
    } else {
        match unquoted(s.drop_first()) {
            Some(r) => Some(seq![s[0]] + r),
            None => None,
        }
    }
}

/// The message for a server argument that ends inside an escape.
pub open spec fn truncated_message(s: Seq<char>) -> Seq<char> {
    "truncated escape sequence in server argument "@ + debug_text(s)
}

/// The message for a reply that holds neither a result nor an error.
pub open spec fn unexpected_reply_message(expr: Seq<char>, response: Seq<char>) -> Seq<char> {
    "expected '-print' or '-error' while evaluating "@ + debug_text(expr) + ", got "@ + debug_text(
        response,
    )
}

/// The outcome of unquoting a server argument.
pub open spec fn unquote_outcome(s: Seq<char>, r: Result<String, EmacsError>) -> bool {
    match unquoted(s) {
        Some(u) => r matches Ok(v) && v@ == u,
        None => r matches Err(EmacsError::Protocol(m)) && m@ == truncated_message(s),
    }
}

/// The position of the first newline of `s`, or its length.
pub open spec fn newline_at(s: Seq<char>) -> nat
    decreases s.len(),
{
    if s.len() == 0 {
        0
    } else if s[0] == '\n' {
        0
    } else {
        1 + newline_at(s.drop_first())
    }
}

proof fn lemma_newline_at(s: Seq<char>, k: int)
    requires
        0 <= k <= s.len(),
        forall|i: int| 0 <= i < k ==> #[trigger] s[i] != '\n',
        k == s.len() || s[k] == '\n',
    ensures
        newline_at(s) == k,
    decreases k,
{
    if k > 0 {
        let t = s.drop_first();
        assert forall|i: int| 0 <= i < k - 1 implies #[trigger] t[i] != '\n' by {
            assert(t[i] == s[i + 1]);
        }
        if k < s.len() {
            assert(t[k - 1] == s[k]);
        }
        lemma_newline_at(t, k - 1);
    }
}

/// The first newline lies within the text.
pub proof fn lemma_newline_at_bound(s: Seq<char>)
    ensures
        newline_at(s) <= s.len(),
    decreases s.len(),
{
    if s.len() > 0 && s[0] != '\n' {
        lemma_newline_at_bound(s.drop_first());
    }
}

/// A line without the carriage return that may end it.
pub open spec fn strip_cr(s: Seq<char>) -> Seq<char> {
    if s.len() > 0 && s.last() == '\r' {
        s.drop_last()
    } else {
        s
    }
}

/// The lines of a text, as `str::lines` yields them: split at each newline,
/// a carriage return before the newline dropped, no empty line after a
/// final newline.
pub open spec fn lines(s: Seq<char>) -> Seq<Seq<char>>
    decreases s.len(),
{
    if s.len() == 0 {
        seq![]
    } else {
        proof {
            lemma_newline_at_bound(s);
        }
        let k = newline_at(s);
        if k == s.len() {
            seq![s]
        } else {
            seq![strip_cr(s.take(k as int))] + lines(s.skip(k + 1 as int))
        }
    }
}

/// The first line that reports a result (`-print `, with `true`) or an
/// error (`-error `, with `false`), with the rest of that line.
pub open spec fn first_reply(ls: Seq<Seq<char>>) -> Option<(bool, Seq<char>)>
    decreases ls.len(),
{
    if ls.len() == 0 {
        None
    } else if has_prefix(ls[0], "-print "@) {
        Some((true, ls[0].skip("-print "@.len() as int)))
    } else if has_prefix(ls[0], "-error "@) {
        Some((false, ls[0].skip("-error "@.len() as int)))
    } else {
        first_reply(ls.drop_first())
    }
}

/// The outcome of reading the server's `response` to the evaluation of
/// `expr`.
pub open spec fn reply_outcome(expr: Seq<char>, response: Seq<char>, r: Result<String, EmacsError>) -> bool {
    match first_reply(lines(response)) {
        Some((true, v)) => unquote_outcome(v, r),
        Some((false, v)) => match unquoted(v) {
            Some(u) => r matches Err(EmacsError::Eval(m)) && m@ == u,
            None => r matches Err(EmacsError::Protocol(m)) && m@ == truncated_message(v),
        },
        None => r matches Err(EmacsError::Protocol(m)) && m@ == unexpected_reply_message(
            expr,
            response,
        ),
    }
}

proof fn lemma_escape_all_front(s: Seq<char>)
    requires
        s.len() > 0,
    ensures
        escape_all(s) == escape_char(s[0]) + escape_all(s.drop_first()),
    decreases s.len(),
{
    if s.len() == 1 {
        assert(s.drop_last() =~= seq![]);
        assert(s.drop_first() =~= seq![]);
        assert(escape_all(s.drop_first()) =~= seq![]);
        assert(escape_all(s) =~= escape_char(s[0]));
    } else {
        lemma_escape_all_front(s.drop_last());
        assert(s.drop_last().drop_first() =~= s.drop_first().drop_last());
        assert(s.drop_first().last() == s.last());
        assert(escape_all(s) =~= escape_char(s[0]) + escape_all(s.drop_first()));
    }
}

proof fn lemma_unquote_escaped(c: char, t: Seq<char>)
    ensures
        unquoted(escape_char(c) + t) == match unquoted(t) {
            Some(r) => Some(seq![c] + r),
            None => None,
        },
{
    let e = escape_char(c) + t;
    if c == ' ' || c == '\n' || c == '&' {
        assert(e.skip(2) =~= t);
    } else {
        assert(e.drop_first() =~= t);
    }
}

proof fn lemma_unquote_escape_all(s: Seq<char>)
    ensures
        unquoted(escape_all(s)) == Some(s),
    decreases s.len(),
{
    if s.len() == 0 {
    } else {
        lemma_escape_all_front(s);
        lemma_unquote_escape_all(s.drop_first());
        lemma_unquote_escaped(s[0], escape_all(s.drop_first()));
        assert(seq![s[0]] + s.drop_first() =~= s);
    }
}

/// Unquoting gives back what was quoted, for every argument.
pub proof fn lemma_unquote_quoted(s: Seq<char>)
    ensures
        unquoted(quoted(s)) == Some(s),
{
    if s.len() > 0 && s[0] == '-' {
        let e = escape_all(s.drop_first());
        lemma_unquote_escape_all(s.drop_first());
        assert((seq!['&', '-'] + e).skip(2) =~= e);
        assert(seq!['-'] + s.drop_first() =~= s);
    } else {
        lemma_unquote_escape_all(s);
    }
}

proof fn lemma_escape_all_plain(s: Seq<char>)
    ensures
        forall|i: int|
            0 <= i < escape_all(s).len() ==> #[trigger] escape_all(s)[i] != ' ' && escape_all(s)[i]
                != '\n',
    decreases s.len(),
{
    if s.len() > 0 {
        lemma_escape_all_plain(s.drop_last());
        let a = escape_all(s.drop_last());
        let b = escape_char(s.last());
        assert forall|i: int| 0 <= i < escape_all(s).len() implies #[trigger] escape_all(s)[i] != ' '
            && escape_all(s)[i] != '\n' by {
            if i < a.len() {
                assert(escape_all(s)[i] == a[i]);
            } else {
                assert(escape_all(s)[i] == b[i - a.len()]);
            }
        }
    }
}

/// A quoted argument holds no space and no newline, so it stays one word
/// of one request line.
pub proof fn lemma_quoted_is_one_word(s: Seq<char>)
    ensures
        forall|i: int|
            0 <= i < quoted(s).len() ==> #[trigger] quoted(s)[i] != ' ' && quoted(s)[i] != '\n',
{
    if s.len() > 0 && s[0] == '-' {
        lemma_escape_all_plain(s.drop_first());
        let e = escape_all(s.drop_first());
        assert forall|i: int| 0 <= i < quoted(s).len() implies #[trigger] quoted(s)[i] != ' '
            && quoted(s)[i] != '\n' by {
            if i >= 2 {
                assert(quoted(s)[i] == e[i - 2]);
            }
        }
    } else {
        lemma_escape_all_plain(s);
    }
}

/// Characters that quoting escapes wherever they stand.
pub open spec fn is_special(c: char) -> bool {
    c == ' ' || c == '\n' || c == '&'
}

proof fn lemma_escape_all_concat(a: Seq<char>, b: Seq<char>)
    ensures
        escape_all(a + b) == escape_all(a) + escape_all(b),
    decreases b.len(),
{
    if b.len() == 0 {
        assert(a + b =~= a);
        assert(escape_all(a) + escape_all(b) =~= escape_all(a));
    } else {
        lemma_escape_all_concat(a, b.drop_last());
        assert((a + b).drop_last() =~= a + b.drop_last());
        assert((a + b).last() == b.last());
        assert(escape_all(a + b) =~= escape_all(a) + escape_all(b));
    }
}

proof fn lemma_escape_all_plain_text(s: Seq<char>)
    requires
        forall|i: int| 0 <= i < s.len() ==> !is_special(#[trigger] s[i]),
    ensures
        escape_all(s) == s,
    decreases s.len(),
{
    if s.len() > 0 {
        assert forall|i: int| 0 <= i < s.drop_last().len() implies !is_special(
            #[trigger] s.drop_last()[i],
        ) by {
            assert(s.drop_last()[i] == s[i]);
        }
        lemma_escape_all_plain_text(s.drop_last());
        assert(!is_special(s[s.len() - 1]));
        assert(escape_all(s) =~= s.drop_last() + seq![s.last()]);
        assert(s.drop_last() + seq![s.last()] =~= s);
    }
}

/// Quoting leaves text alone that holds no space, newline or `&` and does
/// not start with `-`: every other character is copied unchanged.
pub proof fn lemma_plain_text_is_not_quoted(s: Seq<char>)
    requires
        forall|i: int| 0 <= i < s.len() ==> !is_special(#[trigger] s[i]),
        s.len() == 0 || s[0] != '-',
    ensures
        quoted(s) == s,
{
    lemma_escape_all_plain_text(s);
}

/// Quoting works character by character: the quoted form of a text is the
/// quoted form of a first part followed by that of the rest, where the rest
/// does not start with `-`.
pub proof fn lemma_quoting_splits(a: Seq<char>, b: Seq<char>)
    requires
        b.len() == 0 || b[0] != '-',
        a.len() > 0,
    ensures
        quoted(a + b) == quoted(a) + quoted(b),
{
    lemma_escape_all_concat(a, b);
    if a[0] == '-' {
        assert((a + b).drop_first() =~= a.drop_first() + b);
        lemma_escape_all_concat(a.drop_first(), b);
        assert(quoted(a + b) =~= seq!['&', '-'] + escape_all(a.drop_first()) + escape_all(b));
    }
    assert((a + b)[0] == a[0]);
}

/// The quoted form of a single character: `&_` for a space, `&n` for a
/// newline, `&&` for `&`, `&-` for `-`, and the character itself otherwise.
pub proof fn lemma_quoted_char(c: char)
    ensures
        quoted(seq![c]) == if c == ' ' {
            seq!['&', '_']
        } else if c == '\n' {
            seq!['&', 'n']
        } else if c == '&' {
            seq!['&', '&']
        } else if c == '-' {
            seq!['&', '-']
        } else {
            seq![c]
        },
{
    let s = seq![c];
    assert(s.drop_last() =~= Seq::<char>::empty());
    assert(s.drop_first() =~= Seq::<char>::empty());
    assert(escape_all(Seq::<char>::empty()) =~= Seq::<char>::empty());
    assert(escape_all(s) =~= escape_char(c));
    assert(seq!['&', '-'] + Seq::<char>::empty() =~= seq!['&', '-']);
    assert(Seq::<char>::empty() + escape_char(c) =~= escape_char(c));
}

impl EmacsClient {
    /// A client for the server at `socket_path`, whose socket operations
    /// are each bounded by `timeout`.
    pub fn new(socket_path: &Path, timeout: Duration) -> (r: EmacsClient)
        ensures
            r.server_socket() == owned_copy(socket_path),
            r.timeout() == timeout,
    {
        EmacsClient { socket_path: owned_path(socket_path), timeout }
    }

    /// The server socket.
    pub closed spec fn server_socket(&self) -> PathBuf {
        self.socket_path
    }

    /// The server socket.
    pub fn socket_path(&self) -> (r: &PathBuf)
        ensures
            *r == self.server_socket(),
    {
        &self.socket_path
    }

    /// The bound on each socket operation.
    pub closed spec fn timeout(&self) -> Duration {
        self.timeout
    }

    /// The bound on each socket operation.
    pub fn operation_timeout(&self) -> (r: Duration)
        ensures
            r == self.timeout(),
    {
        self.timeout
    }

    /// Quotes an argument for the Emacs server: inserts a `&` before each
    /// `&`, each space, each newline and any initial `-`, and writes spaces
    /// as `_` and newlines as `n`, so that the result holds no space.
    pub fn quote_argument(s: &str) -> (r: String)
        ensures
            r@ == quoted(s@),
    {
        let n = s.unicode_len();
        let mut out = String::new();
        let mut i: usize = 0;
        if n > 0 && s.get_char(0) == '-' {
            out.append("&-");
            i = 1;
        }
        let ghost start = i;
        let ghost rest = s@.skip(start as int);
        proof {
            reveal_strlit("&-");
            assert(rest.take(0) =~= seq![]);
            assert(out@ =~= (if start == 1 {
                seq!['&', '-']
            } else {
                seq![]
            }) + escape_all(rest.take(0)));
        }
        while i < n
            invariant
                n == s@.len(),
                start <= i <= n,
                rest == s@.skip(start as int),
                out@ == (if start == 1 {
                    seq!['&', '-']
                } else {
                    seq![]
                }) + escape_all(rest.take(i - start)),
            decreases n - i,
        {
            let c = s.get_char(i);
            let ghost before = out@;
            if c == ' ' {
                push_char(&mut out, '&');
                push_char(&mut out, '_');
            } else if c == '\n' {
                push_char(&mut out, '&');
                push_char(&mut out, 'n');
            } else if c == '&' {
                push_char(&mut out, '&');
                push_char(&mut out, '&');
            } else {
                push_char(&mut out, c);
            }
            proof {
                let p = rest.take(i + 1 - start);
                assert(p.drop_last() =~= rest.take(i - start));
                assert(p.last() == c);
                assert(out@ =~= before + escape_char(c));
            }
            i = i + 1;
        }
        proof {
            assert(rest.take(n - start) =~= rest);
            if start == 1 {
                assert(rest =~= s@.drop_first());
            } else {
                assert(rest =~= s@);
            }
        }
        out
    }

    /// Reads back an argument quoted by the server, and reports a protocol
    /// error where it ends inside an escape.
    pub fn unquote_argument(s: &str) -> (r: Result<String, EmacsError>)
        ensures
            unquote_outcome(s@, r),
    {
        let n = s.unicode_len();
        let mut out = String::new();
        let mut i: usize = 0;
        assert(s@.skip(0) =~= s@);
        while i < n
            invariant
                n == s@.len(),
                i <= n,
                unquoted(s@) == match unquoted(s@.skip(i as int)) {
                    Some(r) => Some(out@ + r),
                    None => None,
                },
            decreases n - i,
        {
            let c = s.get_char(i);
            let ghost t = s@.skip(i as int);
            if c == '&' {
                if i + 1 == n {
                    let message = String::from_str("truncated escape sequence in server argument ").concat(
                        debug_string(s).as_str(),
                    );
                    return Err(EmacsError::Protocol(message));
                }
                let d = s.get_char(i + 1);
                let ghost before = out@;
                if d == '_' {
                    push_char(&mut out, ' ');
                } else if d == 'n' {
                    push_char(&mut out, '\n');
                } else {
                    push_char(&mut out, d);
                }
                proof {
                    assert(t.skip(2) =~= s@.skip(i + 2));
                    assert(t[1] == d);
                    match unquoted(t.skip(2)) {
                        Some(r) => {
                            assert(out@ + r =~= before + (seq![unescape_char(d)] + r));
                        },
                        None => {},
                    }
                }
                i = i + 2;
            } else {
                let ghost before = out@;
                push_char(&mut out, c);
                proof {
                    assert(t.drop_first() =~= s@.skip(i + 1));
                    match unquoted(t.drop_first()) {
                        Some(r) => {
                            assert(out@ + r =~= before + (seq![c] + r));
                        },
                        None => {},
                    }
                }
                i = i + 1;
            }
        }
        proof {
            assert(out@ + seq![] =~= out@);
        }
        Ok(out)
    }

    /// The request line that asks the server to evaluate `expr` in the
    /// current frame.
    pub fn request(expr: &str) -> (r: String)
        ensures
            r@ == "-current-frame -eval "@ + quoted(expr@) + " \n"@,
    {
        let quoted_expr = EmacsClient::quote_argument(expr);
        String::from_str("-current-frame -eval ").concat(quoted_expr.as_str()).concat(" \n")
    }

    /// Reads the server's `response` to the evaluation of `expr`: the first
    /// line that starts with `-print ` gives the value, the first that starts
    /// with `-error ` gives Emacs's error; without either the reply is a
    /// protocol error.
    pub fn decode_response(expr: &str, response: &str) -> (r: Result<String, EmacsError>)
        ensures
            reply_outcome(expr@, response@, r),
    {
        let n = response.unicode_len();
        let print_len = "-print ".unicode_len();
        let error_len = "-error ".unicode_len();
        let mut pos: usize = 0;
        assert(response@.skip(0) =~= response@);
        while pos < n
            invariant
                n == response@.len(),
                pos <= n,
                print_len == "-print "@.len(),
                error_len == "-error "@.len(),
                first_reply(lines(response@)) == first_reply(lines(response@.skip(pos as int))),
            decreases n - pos,
        {
            let mut k: usize = pos;
            while k < n
                invariant
                    n == response@.len(),
                    pos <= k <= n,
                    forall|i: int| pos <= i < k ==> #[trigger] response@[i] != '\n',
                ensures
                    k == n || response@[k as int] == '\n',
                decreases n - k,
            {
                if response.get_char(k) == '\n' {
                    break;
                }
                k = k + 1;
            }
            let end: usize = if k < n && k > pos && response.get_char(k - 1) == '\r' {
                k - 1
            } else {
                k
            };
            let ghost t = response@.skip(pos as int);
            let ghost line = response@.subrange(pos as int, end as int);
            proof {
                assert forall|i: int| 0 <= i < k - pos implies #[trigger] t[i] != '\n' by {
                    assert(t[i] == response@[pos + i]);
                }
                if k < n {
                    assert(t[k - pos] == response@[k as int]);
                }
                lemma_newline_at(t, k - pos);
                if k == n {
                    assert(t =~= line);
                    assert(lines(t) == seq![line]);
                    assert(seq![line].drop_first() =~= Seq::<Seq<char>>::empty());
                } else {
                    assert(t.take(k - pos) =~= response@.subrange(pos as int, k as int));
                    assert(strip_cr(t.take(k - pos)) =~= line);
                    assert(t.skip(k - pos + 1) =~= response@.skip(k + 1));
                    assert(lines(t) == seq![line] + lines(response@.skip(k + 1)));
                    assert((seq![line] + lines(response@.skip(k + 1))).drop_first() =~= lines(
                        response@.skip(k + 1),
                    ));
                }
                assert(lines(t)[0] == line);
            }
            if range_has_prefix(response, pos, end, "-print ") {
                let value = response.substring_char(pos + print_len, end);
                assert(value@ =~= line.skip("-print "@.len() as int));
                return EmacsClient::unquote_argument(value);
            }
            if range_has_prefix(response, pos, end, "-error ") {
                let value = response.substring_char(pos + error_len, end);
                assert(value@ =~= line.skip("-error "@.len() as int));
                return match EmacsClient::unquote_argument(value) {
                    Ok(message) => Err(EmacsError::Eval(message)),
                    Err(error) => Err(error),
                };
            }
            pos = if k < n {
                k + 1
            } else {
                n
            };
        }
        let message = String::from_str("expected '-print' or '-error' while evaluating ").concat(
            debug_string(expr).as_str(),
        ).concat(", got ").concat(debug_string(response).as_str());
        Err(EmacsError::Protocol(message))
    }
}

} // verus!
