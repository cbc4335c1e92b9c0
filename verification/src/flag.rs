//! Classification of raw command-line strings into typed argument tokens.
//!
//! Every input string maps to exactly one [`Argument`] variant, decided by an
//! ordered, mutually exclusive rule set over the string's length and the
//! character class of its first two characters.  The only possible failure is
//! an overflow of the decimal literal of a line-number selector.
use vstd::prelude::*;

verus! {

/// The error produced when tokenization fails.
#[derive(Debug, Clone, PartialEq, Eq, Structural)]
pub struct ParseError {
    pub kind: ErrorKind,
}

/// The kinds of tokenization failure.  `Unexpected` is reserved for future
/// grammar extensions; the present grammar never constructs it.
#[derive(Debug, Clone, PartialEq, Eq, Structural)]
pub enum ErrorKind {
    Overflow,
    Unexpected(char),
}

impl ParseError {
    /// A short fixed description of the failure's class.
    pub fn description(&self) -> (r: &'static str)
        ensures
            self.kind is Overflow ==> r@ == "overflow"@,
            self.kind matches ErrorKind::Unexpected(_) ==> r@ == "unexpected"@,
    {
        match self.kind {
            ErrorKind::Overflow => "overflow",
            ErrorKind::Unexpected(_) => "unexpected",
        }
    }
}

/// One classified command-line token.
#[derive(Debug)]
pub enum Argument {
    /// `+42`: a line-number selector.
    Line(i64),

    /// `-f bar` written as `-fbar`: a flag letter with its value glued on.
    Option(char, String),

    /// `-h`: a bare boolean flag.
    Flag(char),

    /// Any string matching no other rule, kept unchanged.
    Free(String),

    /// Exactly `-`: read from standard input.
    Stdin,
}

/// The mathematical model of one token: payloads as sequences and integers.
pub ghost enum ArgView {
    Line(int),
    Opt(char, Seq<char>),
    Flag(char),
    Free(Seq<char>),
    Stdin,
}

impl View for Argument {
    type V = ArgView;

    open spec fn view(&self) -> ArgView {
        match self {
            Argument::Line(n) => ArgView::Line(*n as int),
            Argument::Option(c, v) => ArgView::Opt(*c, v@),
            Argument::Flag(c) => ArgView::Flag(*c),
            Argument::Free(s) => ArgView::Free(s@),
            Argument::Stdin => ArgView::Stdin,
        }
    }
}

impl DeepView for Argument {
    type V = ArgView;

    open spec fn deep_view(&self) -> ArgView {
        self.view()
    }
}

/// An ASCII decimal digit.
pub open spec fn spec_is_digit(c: char) -> bool {
    '0' <= c && c <= '9'
}

/// An ASCII letter or digit.  The grammar's character-class tests are
/// ASCII-oriented; anything else falls through into `Free`.
pub open spec fn spec_is_alnum(c: char) -> bool {
    spec_is_digit(c) || ('A' <= c && c <= 'Z') || ('a' <= c && c <= 'z')
}

/// The numeric value of one decimal digit.
pub open spec fn digit_val(c: char) -> int {
    c as int - '0' as int
}

/// Every character of `s` is a decimal digit.
pub open spec fn all_digits(s: Seq<char>) -> bool {
    forall|i: int| 0 <= i < s.len() ==> spec_is_digit(#[trigger] s[i])
}

/// The base-10 value of a digit string.
pub open spec fn digits_value(s: Seq<char>) -> int
    decreases s.len(),
{
    if s.len() == 0 {
        0
    } else {
        digits_value(s.drop_last()) * 10 + digit_val(s.last())
    }
}

/// `+` followed by a non-empty all-digit run.
pub open spec fn line_form(s: Seq<char>) -> bool {
    s.len() >= 2 && s[0] == '+' && all_digits(s.skip(1))
}

/// `-`, an alphanumeric letter, and at least one further value character.
pub open spec fn option_form(s: Seq<char>) -> bool {
    s.len() > 2 && s[0] == '-' && spec_is_alnum(s[1])
}

/// `-` followed by exactly one alphanumeric letter.
pub open spec fn flag_form(s: Seq<char>) -> bool {
    s.len() == 2 && s[0] == '-' && spec_is_alnum(s[1])
}

/// Exactly the string `-`.
pub open spec fn stdin_form(s: Seq<char>) -> bool {
    s.len() == 1 && s[0] == '-'
}

/// The full classification: each string maps to exactly one token, or to
/// `Overflow` when a line-number literal exceeds the signed 64-bit range.
/// Rules are tried in priority order; their guards are mutually exclusive.
pub open spec fn classify(s: Seq<char>) -> Result<ArgView, ErrorKind> {
    if line_form(s) {
        if digits_value(s.skip(1)) <= i64::MAX {
            Ok(ArgView::Line(digits_value(s.skip(1))))
        } else {
            Err(ErrorKind::Overflow)
        }
    } else if option_form(s) {
        Ok(ArgView::Opt(s[1], s.skip(2)))
    } else if flag_form(s) {
        Ok(ArgView::Flag(s[1]))
    } else if stdin_form(s) {
        Ok(ArgView::Stdin)
    } else {
        Ok(ArgView::Free(s))
    }
}

/// The length of the contiguous digit run of `s` that starts at position `i`.
pub open spec fn digit_run_len(s: Seq<char>, i: int) -> int
    decreases s.len() - i,
{
    if i < 0 || i >= s.len() || !spec_is_digit(s[i]) {
        0
    } else {
        1 + digit_run_len(s, i + 1)
    }
}

/// The numeric value of the digit run of `s` that starts at position `i`.
pub open spec fn run_value(s: Seq<char>, i: int) -> int {
    digits_value(s.subrange(i, i + digit_run_len(s, i)))
}

/// A digit string never denotes a negative value.
pub proof fn lemma_digits_value_nonneg(s: Seq<char>)
    requires
        all_digits(s),
    ensures
        digits_value(s) >= 0,
    decreases s.len(),
{
    if s.len() > 0 {
        assert(all_digits(s.drop_last()));
        lemma_digits_value_nonneg(s.drop_last());
    }
}

/// Totality: classification fails only with `Overflow`; no other error kind
/// is ever produced.
pub proof fn lemma_classify_total(s: Seq<char>)
    ensures
        classify(s) matches Err(k) ==> k == ErrorKind::Overflow,
{
}

/// The run starting at `i` stays inside `s` and consists of digits only.
proof fn lemma_digit_run_in_bounds(s: Seq<char>, i: int)
    requires
        0 <= i <= s.len(),
    ensures
        0 <= digit_run_len(s, i),
        i + digit_run_len(s, i) <= s.len(),
        all_digits(s.subrange(i, i + digit_run_len(s, i))),
    decreases s.len() - i,
{
    if i < s.len() && spec_is_digit(s[i]) {
        lemma_digit_run_in_bounds(s, i + 1);
        let r = s.subrange(i, i + digit_run_len(s, i));
        let r1 = s.subrange(i + 1, i + 1 + digit_run_len(s, i + 1));
        assert forall|j: int| 0 <= j < r.len() implies spec_is_digit(#[trigger] r[j]) by {
            if j > 0 {
                assert(r[j] == r1[j - 1]);
            }
        }
    }
}

/// When everything from `i` on is a digit, the run reaches the end of `s`.
proof fn lemma_digit_run_full(s: Seq<char>, i: int)
    requires
        0 <= i <= s.len(),
        all_digits(s.skip(i)),
    ensures
        digit_run_len(s, i) == s.len() - i,
    decreases s.len() - i,
{
    if i < s.len() {
        assert(spec_is_digit(s[i])) by {
            assert(s.skip(i)[0] == s[i]);
        }
        assert(all_digits(s.skip(i + 1))) by {
            assert forall|j: int| 0 <= j < s.skip(i + 1).len() implies spec_is_digit(
                #[trigger] s.skip(i + 1)[j],
            ) by {
                assert(s.skip(i + 1)[j] == s.skip(i)[j + 1]);
            }
        }
        lemma_digit_run_full(s, i + 1);
    }
}

/// Extending a digit string on the right never decreases its value.
proof fn lemma_digits_value_prefix_mono(p: Seq<char>, t: Seq<char>)
    requires
        all_digits(t),
        p.len() <= t.len(),
        p == t.subrange(0, p.len() as int),
    ensures
        digits_value(p) <= digits_value(t),
    decreases t.len(),
{
    if p.len() < t.len() {
        let t1 = t.drop_last();
        assert(all_digits(t1)) by {
            assert(forall|j: int| 0 <= j < t1.len() ==> t1[j] == t[j]);
        }
        assert(p == t1.subrange(0, p.len() as int)) by {
            assert(p =~= t1.subrange(0, p.len() as int));
        }
        lemma_digits_value_prefix_mono(p, t1);
        lemma_digits_value_nonneg(t1);
        assert(digits_value(t) == digits_value(t1) * 10 + digit_val(t.last()));
        assert(digit_val(t.last()) >= 0);
        assert(digits_value(t1) * 10 >= digits_value(t1)) by (nonlinear_arith)
            requires digits_value(t1) >= 0;
    } else {
        assert(p =~= t);
    }
}

/// A cursor over one raw input string; `idx` counts characters, not bytes.
struct Lexer<'a> {
    input: &'a str,
    idx: usize,
}

impl<'a> Lexer<'a> {
    spec fn wf(&self) -> bool {
        self.idx <= self.input@.len()
    }

    fn new(input: &'a str) -> (r: Lexer<'a>)
        ensures
            r.input@ == input@,
            r.idx == 0,
    {
        Lexer { input, idx: 0 }
    }

    /// The part of the input that is not yet consumed.
    fn rest(&self) -> (r: &'a str)
        requires
            self.wf(),
        ensures
            r@ == self.input@.skip(self.idx as int),
    {
        let n = self.input.unicode_len();
        let r = self.input.substring_char(self.idx, n);
        proof {
            assert(r@ =~= self.input@.skip(self.idx as int));
        }
        r
    }

    fn peek_char(&self) -> (r: Option<char>)
        requires
            self.wf(),
        ensures
            r == if self.idx < self.input@.len() {
                Some(self.input@[self.idx as int])
            } else {
                None::<char>
            },
    {
        let n = self.input.unicode_len();
        if self.idx < n {
            Some(self.input.get_char(self.idx))
        } else {
            None
        }
    }

    /// Consume one character; at the end of the input, stand still and
    /// hand back NUL.
    fn take_char(&mut self) -> (r: char)
        requires
            old(self).wf(),
        ensures
            final(self).input@ == old(self).input@,
            final(self).wf(),
            old(self).idx < old(self).input@.len() ==> final(self).idx == old(self).idx + 1
                && r == old(self).input@[old(self).idx as int],
            old(self).idx >= old(self).input@.len() ==> final(self).idx == old(self).idx
                && r == '\0',
    {
        let n = self.input.unicode_len();
        if self.idx < n {
            let ch = self.input.get_char(self.idx);
            self.idx = self.idx + 1;
            ch
        } else {
            '\0'
        }
    }

    /// Consume and return everything that is left.
    fn take_rest(&mut self) -> (r: String)
        requires
            old(self).wf(),
        ensures
            final(self).input@ == old(self).input@,
            final(self).wf(),
            final(self).idx == final(self).input@.len(),
            r@ == old(self).input@.skip(old(self).idx as int),
    {
        let s = self.rest();
        let n = self.input.unicode_len();
        self.idx = n;
        String::from_str(s)
    }

    /// Whether `ns` consists of decimal digits only; the empty string counts.
    fn is_integer(&self, ns: &str) -> (r: bool)
        ensures
            r == all_digits(ns@),
    {
        let n = ns.unicode_len();
        let mut i: usize = 0;
        while i < n
            invariant
                n == ns@.len(),
                i <= n,
                forall|j: int| 0 <= j < i ==> spec_is_digit(#[trigger] ns@[j]),
            decreases n - i,
        {
            let c = ns.get_char(i);
            if !('0' <= c && c <= '9') {
                return false;
            }
            i = i + 1;
        }
        true
    }

    /// Consume the digit run at the cursor, accumulating its base-10 value
    /// with an explicit bound check at every step; fail with `Overflow` the
    /// instant the signed 64-bit range would be exceeded.
    fn integer(&mut self) -> (r: Result<i64, ParseError>)
        requires
            old(self).wf(),
        ensures
            final(self).input@ == old(self).input@,
            final(self).wf(),
            match r {
                Ok(v) => final(self).idx == old(self).idx + digit_run_len(
                    old(self).input@,
                    old(self).idx as int,
                ) && v as int == run_value(old(self).input@, old(self).idx as int),
                Err(e) => e.kind == ErrorKind::Overflow && run_value(
                    old(self).input@,
                    old(self).idx as int,
                ) > i64::MAX,
            },
    {
        let ghost s = self.input@;
        let ghost i0 = self.idx as int;
        let n = self.input.unicode_len();
        let mut value: i64 = 0;
        proof {
            assert(s.subrange(i0, i0) =~= Seq::<char>::empty());
        }
        loop
            invariant
                self.input@ == s,
                s == old(self).input@,
                i0 == old(self).idx as int,
                n == s.len(),
                self.wf(),
                0 <= i0 <= self.idx as int,
                value >= 0,
                all_digits(s.subrange(i0, self.idx as int)),
                value as int == digits_value(s.subrange(i0, self.idx as int)),
                digit_run_len(s, i0) == (self.idx as int - i0) + digit_run_len(s, self.idx as int),
            ensures
                self.input@ == s,
                self.wf(),
                0 <= i0 <= self.idx as int,
                value >= 0,
                value as int == digits_value(s.subrange(i0, self.idx as int)),
                self.idx as int == i0 + digit_run_len(s, i0),
            decreases n - self.idx,
        {
            if self.idx == n {
                break;
            }
            let c = self.input.get_char(self.idx);
            if !('0' <= c && c <= '9') {
                break;
            }
            let digit: i64 = (c as u32 - 48) as i64;
            proof {
                assert(spec_is_digit(s[self.idx as int]));
                assert(digit == digit_val(s[self.idx as int]));
            }
            if value <= (i64::MAX - digit) / 10 {
                proof {
                    assert(value * 10 + digit <= i64::MAX) by (nonlinear_arith)
                        requires
                            0 <= digit <= 9,
                            0 <= value,
                            value <= (i64::MAX - digit) / 10,
                    ;
                    let j = self.idx as int;
                    let p = s.subrange(i0, j);
                    let q = s.subrange(i0, j + 1);
                    assert(q.drop_last() =~= p);
                    assert(q.last() == s[j]);
                    assert(digits_value(q) == digits_value(p) * 10 + digit_val(s[j]));
                    assert(digit_run_len(s, j) == 1 + digit_run_len(s, j + 1));
                }
                value = value * 10 + digit;
                self.idx = self.idx + 1;
            } else {
                proof {
                    let j = self.idx as int;
                    assert(value * 10 + digit > i64::MAX) by (nonlinear_arith)
                        requires
                            0 <= digit <= 9,
                            0 <= value,
                            value > (i64::MAX - digit) / 10,
                    ;
                    let p = s.subrange(i0, j);
                    let q = s.subrange(i0, j + 1);
                    assert(q.drop_last() =~= p);
                    assert(q.last() == s[j]);
                    assert(digits_value(q) == value * 10 + digit);
                    lemma_digit_run_in_bounds(s, j);
                    let end = i0 + digit_run_len(s, i0);
                    let run = s.subrange(i0, end);
                    assert(all_digits(run)) by {
                        let tail = s.subrange(j, j + digit_run_len(s, j));
                        assert forall|k: int| 0 <= k < run.len() implies spec_is_digit(
                            #[trigger] run[k],
                        ) by {
                            if k < j - i0 {
                                assert(run[k] == p[k]);
                            } else {
                                assert(run[k] == tail[k - (j - i0)]);
                            }
                        }
                    }
                    assert(digit_run_len(s, j) == 1 + digit_run_len(s, j + 1));
                    lemma_digit_run_in_bounds(s, j + 1);
                    assert(digit_run_len(s, j) >= 1);
                    assert(q == run.subrange(0, q.len() as int)) by {
                        assert(q =~= run.subrange(0, q.len() as int));
                    }
                    lemma_digits_value_prefix_mono(q, run);
                }
                return Err(ParseError { kind: ErrorKind::Overflow });
            }
        }
        Ok(value)
    }

    /// Whether `ch` holds an ASCII letter or digit.
    fn is_alphanumeric(&self, ch: Option<char>) -> (r: bool)
        ensures
            r == (ch matches Some(c) && spec_is_alnum(c)),
    {
        match ch {
            Some(c) => ('0' <= c && c <= '9') || ('A' <= c && c <= 'Z') || ('a' <= c && c
                <= 'z'),
            None => false,
        }
    }

    /// Classify the whole input as one token, by the ordered rule set of
    /// [`classify`].
    fn tokenize(&mut self) -> (r: Result<Argument, ParseError>)
        requires
            old(self).wf(),
            old(self).idx == 0,
        ensures
            token_result_view(r) == classify(old(self).input@),
    {
        let ghost s = self.input@;
        let n = self.input.unicode_len();
        let c0 = self.take_char();
        if n > 0 && c0 == '+' {
            let rest = self.rest();
            if !rest.is_empty() && self.is_integer(rest) {
                proof {
                    assert(line_form(s));
                    lemma_digit_run_full(s, 1);
                    assert(s.subrange(1, 1 + digit_run_len(s, 1)) =~= s.skip(1));
                    lemma_digits_value_nonneg(s.skip(1));
                }
                match self.integer() {
                    Ok(v) => Ok(Argument::Line(v)),
                    Err(e) => Err(e),
                }
            } else {
                proof {
                    assert(!line_form(s));
                }
                Ok(Argument::Free(String::from_str(self.input)))
            }
        } else if n > 0 && c0 == '-' {
            let next = self.peek_char();
            if self.is_alphanumeric(next) {
                let letter = self.take_char();
                if n > 2 {
                    let value = self.take_rest();
                    proof {
                        assert(option_form(s));
                    }
                    Ok(Argument::Option(letter, value))
                } else {
                    proof {
                        assert(flag_form(s));
                    }
                    Ok(Argument::Flag(letter))
                }
            } else if n == 1 {
                proof {
                    assert(stdin_form(s));
                }
                Ok(Argument::Stdin)
            } else {
                Ok(Argument::Free(String::from_str(self.input)))
            }
        } else {
            Ok(Argument::Free(String::from_str(self.input)))
        }
    }
}

/// The model of a tokenization outcome: the token's model, or the error kind.
pub open spec fn token_result_view(r: Result<Argument, ParseError>) -> Result<
    ArgView,
    ErrorKind,
> {
    match r {
        Ok(a) => Ok(a@),
        Err(e) => Err(e.kind),
    }
}

/// Classify one raw string as one token; the only possible failure is an
/// overflowing line-number literal.
pub fn tokenize_str(input: &str) -> (r: Result<Argument, ParseError>)
    ensures
        token_result_view(r) == classify(input@),
{
    let mut lexer = Lexer::new(input);
    lexer.tokenize()
}

impl Argument {
    /// The string payload of a token, for the two variants that carry one.
    pub fn as_str(&self) -> (r: Option<&str>)
        ensures
            match self@ {
                ArgView::Opt(_, t) => r matches Some(s) && s@ == t,
                ArgView::Free(t) => r matches Some(s) && s@ == t,
                _ => r is None,
            },
    {
        match self {
            Argument::Free(s) => Some(s.as_str()),
            Argument::Option(_, s) => Some(s.as_str()),
            _ => None,
        }
    }
}

impl PartialEq for Argument {
    fn eq(&self, other: &Argument) -> (r: bool) {
        match (self, other) {
            (Argument::Line(a), Argument::Line(b)) => *a == *b,
            (Argument::Option(c1, v1), Argument::Option(c2, v2)) => *c1 == *c2 && *v1 == *v2,
            (Argument::Flag(a), Argument::Flag(b)) => *a == *b,
            (Argument::Free(a), Argument::Free(b)) => *a == *b,
            (Argument::Stdin, Argument::Stdin) => true,
            _ => false,
        }
    }
}

impl vstd::std_specs::cmp::PartialEqSpecImpl for Argument {
    open spec fn obeys_eq_spec() -> bool {
        true
    }

    open spec fn eq_spec(&self, other: &Argument) -> bool {
        self@ == other@
    }
}

/// Whether token `a` is a flag or an option introduced by the letter `c`.
pub open spec fn matches_letter(a: ArgView, c: char) -> bool {
    match a {
        ArgView::Opt(x, _) => x == c,
        ArgView::Flag(x) => x == c,
        _ => false,
    }
}

/// The earliest token for letter `c`, searching from the front.
pub open spec fn spec_first(s: Seq<ArgView>, c: char) -> Option<ArgView>
    decreases s.len(),
{
    if s.len() == 0 {
        None
    } else if matches_letter(s[0], c) {
        Some(s[0])
    } else {
        spec_first(s.skip(1), c)
    }
}

/// The position of the earliest token for letter `c`; meaningful only when
/// one exists.
pub open spec fn first_match_index(s: Seq<ArgView>, c: char) -> int
    decreases s.len(),
{
    if s.len() == 0 {
        0
    } else if matches_letter(s[0], c) {
        0
    } else {
        1 + first_match_index(s.skip(1), c)
    }
}

/// First match wins: when a lookup succeeds it hands back the token at the
/// earliest matching position, every earlier token matching nowhere; when it
/// fails, no token matches at all.
pub proof fn lemma_first_earliest(s: Seq<ArgView>, c: char)
    ensures
        spec_first(s, c) matches Some(a) ==> {
            let i = first_match_index(s, c);
            0 <= i < s.len() && s[i] == a && matches_letter(a, c) && (forall|j: int|
                0 <= j < i ==> !matches_letter(s[j], c))
        },
        spec_first(s, c) is None ==> forall|i: int|
            0 <= i < s.len() ==> !matches_letter(s[i], c),
    decreases s.len(),
{
    if s.len() == 0 {
    } else if matches_letter(s[0], c) {
    } else {
        lemma_first_earliest(s.skip(1), c);
        assert(forall|j: int| 1 <= j < s.len() ==> s[j] == s.skip(1)[j - 1]);
        if spec_first(s, c) matches Some(a) {
            let i1 = first_match_index(s.skip(1), c);
            assert(s[1 + i1] == s.skip(1)[i1]);
        }
    }
}

/// The string payloads of the `Free` tokens, in their original order; every
/// other variant is excluded.
pub open spec fn free_texts(s: Seq<ArgView>) -> Seq<Seq<char>> {
    s.filter(|a: ArgView| a is Free).map_values(|a: ArgView| a->Free_0)
}

/// An ordered collection of tokens; insertion order is kept, for it decides
/// which token a lookup by letter finds.
#[derive(Debug)]
pub struct Arguments(Vec<Argument>);

impl View for Arguments {
    type V = Seq<ArgView>;

    closed spec fn view(&self) -> Seq<ArgView> {
        self.0.deep_view()
    }
}

impl Arguments {
    /// The number of tokens held.
    pub fn len(&self) -> (n: usize)
        ensures
            n == self@.len(),
    {
        self.0.len()
    }

    /// The token at position `i`.
    pub fn get(&self, i: usize) -> (r: &Argument)
        requires
            i < self@.len(),
        ensures
            r@ == self@[i as int],
    {
        &self.0[i]
    }

    /// The earliest token in insertion order whose variant is `Flag(flag)`
    /// or `Option(flag, _)`.
    pub fn first(&self, flag: char) -> (r: Option<&Argument>)
        ensures
            match r {
                Some(arg) => spec_first(self@, flag) == Some(arg@),
                None => spec_first(self@, flag) is None,
            },
    {
        let n = self.0.len();
        let mut i: usize = 0;
        proof {
            assert(self@.skip(0) =~= self@);
        }
        while i < n
            invariant
                n == self.0.len(),
                i <= n,
                self@.len() == n,
                spec_first(self@, flag) == spec_first(self@.skip(i as int), flag),
            decreases n - i,
        {
            let arg = &self.0[i];
            let hit = match arg {
                Argument::Flag(ch) => *ch == flag,
                Argument::Option(ch, _) => *ch == flag,
                _ => false,
            };
            proof {
                assert(arg@ == self@[i as int]);
                assert(self@.skip(i as int)[0] == self@[i as int]);
            }
            if hit {
                return Some(arg);
            }
            proof {
                assert(self@.skip(i as int).skip(1) =~= self@.skip(i as int + 1));
            }
            i = i + 1;
        }
        proof {
            assert(self@.skip(n as int) =~= Seq::<ArgView>::empty());
        }
        None
    }

    /// Whether some token carries the letter `flag`; strictly the success of
    /// [`Arguments::first`].
    pub fn present(&self, flag: char) -> (r: bool)
        ensures
            r == (spec_first(self@, flag) is Some),
    {
        self.first(flag).is_some()
    }

    /// The payloads of the `Free` tokens, in original order.
    pub fn free(&self) -> (r: Vec<String>)
        ensures
            r.deep_view() == free_texts(self@),
    {
        let n = self.0.len();
        let mut out: Vec<String> = Vec::new();
        proof {
            reveal(Seq::filter);
            assert(self@.take(0) =~= Seq::<ArgView>::empty());
            assert(out.deep_view() =~= free_texts(self@.take(0)));
        }
        let mut i: usize = 0;
        while i < n
            invariant
                n == self.0.len(),
                i <= n,
                self@.len() == n,
                out.deep_view() == free_texts(self@.take(i as int)),
            decreases n - i,
        {
            let ghost prev = out.deep_view();
            let arg = &self.0[i];
            match arg {
                Argument::Free(s) => {
                    out.push(s.clone());
                },
                _ => {},
            }
            proof {
                reveal(Seq::filter);
                assert(arg@ == self@[i as int]);
                let t1 = self@.take(i as int + 1);
                assert(t1.drop_last() =~= self@.take(i as int));
                assert(t1.last() == self@[i as int]);
                let f = |a: ArgView| a is Free;
                if self@[i as int] is Free {
                    assert(t1.filter(f) == self@.take(i as int).filter(f).push(t1.last()));
                    assert(free_texts(t1) =~= free_texts(self@.take(i as int)).push(
                        self@[i as int]->Free_0,
                    ));
                    assert(out.deep_view() =~= prev.push(self@[i as int]->Free_0));
                } else {
                    assert(t1.filter(f) == self@.take(i as int).filter(f));
                    assert(free_texts(t1) =~= free_texts(self@.take(i as int)));
                }
            }
            i = i + 1;
        }
        proof {
            assert(self@.take(n as int) =~= self@);
        }
        out
    }
}

/// Tokenize each raw string in order and collect the tokens.  The first
/// overflow aborts the whole build; no partial collection is produced.
pub fn parse(args: &Vec<String>) -> (r: Result<Arguments, ParseError>)
    ensures
        match r {
            Ok(toks) => toks@.len() == args@.len() && forall|i: int|
                0 <= i < args@.len() ==> #[trigger] classify(args@[i]@) == Ok::<
                    ArgView,
                    ErrorKind,
                >(toks@[i]),
            Err(e) => exists|i: int|
                0 <= i < args@.len() && #[trigger] classify(args@[i]@) == Err::<
                    ArgView,
                    ErrorKind,
                >(e.kind) && (forall|j: int| 0 <= j < i ==> classify(args@[j]@) is Ok),
        },
{
    let n = args.len();
    let mut toks: Vec<Argument> = Vec::new();
    let mut i: usize = 0;
    while i < n
        invariant
            n == args@.len(),
            i <= n,
            toks@.len() == i,
            forall|k: int|
                0 <= k < i ==> #[trigger] classify(args@[k]@) == Ok::<ArgView, ErrorKind>(
                    toks@[k]@,
                ),
        decreases n - i,
    {
        match tokenize_str(args[i].as_str()) {
            Ok(tok) => {
                toks.push(tok);
            },
            Err(e) => {
                return Err(e);
            },
        }
        i = i + 1;
    }
    let r = Arguments(toks);
    proof {
        assert(forall|k: int| 0 <= k < n ==> r@[k] == toks@[k]@);
    }
    Ok(r)
}

/// A representable line-number literal: `+` before an in-range digit string
/// classifies as `Line` with that string's value.
pub proof fn lemma_classify_line(d: Seq<char>)
    requires
        d.len() > 0,
        all_digits(d),
        digits_value(d) <= i64::MAX,
    ensures
        classify(seq!['+'] + d) == Ok::<ArgView, ErrorKind>(ArgView::Line(digits_value(d))),
{
    let s = seq!['+'] + d;
    assert(s.skip(1) =~= d);
    assert(line_form(s));
}

/// An overflowing line-number literal: `+` before a too-large digit string
/// fails with `Overflow`.
pub proof fn lemma_classify_line_overflow(d: Seq<char>)
    requires
        d.len() > 0,
        all_digits(d),
        digits_value(d) > i64::MAX,
    ensures
        classify(seq!['+'] + d) == Err::<ArgView, ErrorKind>(ErrorKind::Overflow),
{
    let s = seq!['+'] + d;
    assert(s.skip(1) =~= d);
    assert(line_form(s));
}

/// The bare `-` classifies as the standard-input marker.
pub proof fn lemma_classify_stdin()
    ensures
        classify(seq!['-']) == Ok::<ArgView, ErrorKind>(ArgView::Stdin),
{
    let s = seq!['-'];
    assert(stdin_form(s));
    assert(!line_form(s));
    assert(!option_form(s));
    assert(!flag_form(s));
}

/// `-` before a single alphanumeric character classifies as a flag.
pub proof fn lemma_classify_flag(c: char)
    requires
        spec_is_alnum(c),
    ensures
        classify(seq!['-', c]) == Ok::<ArgView, ErrorKind>(ArgView::Flag(c)),
{
    let s = seq!['-', c];
    assert(flag_form(s));
    assert(!line_form(s));
    assert(!option_form(s));
}

/// `-`, an alphanumeric character and a non-empty remainder classify as an
/// option carrying that remainder as its value.
pub proof fn lemma_classify_option(c: char, v: Seq<char>)
    requires
        spec_is_alnum(c),
        v.len() > 0,
    ensures
        classify(seq!['-', c] + v) == Ok::<ArgView, ErrorKind>(ArgView::Opt(c, v)),
{
    let s = seq!['-', c] + v;
    assert(s[0] == '-');
    assert(s[1] == c);
    assert(option_form(s));
    assert(!line_form(s));
    assert(s.skip(2) =~= v);
}

/// Anything that matches none of the `+`/`-` forms classifies as `Free`,
/// carrying the original string unchanged.
pub proof fn lemma_classify_free(s: Seq<char>)
    requires
        !line_form(s),
        !option_form(s),
        !flag_form(s),
        !stdin_form(s),
    ensures
        classify(s) == Ok::<ArgView, ErrorKind>(ArgView::Free(s)),
{
}

} // verus!
