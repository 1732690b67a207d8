use vstd::prelude::*;
use vstd::string::StringExecFns;

verus! {

broadcast use vstd::string::axiom_spec_iter;

/// One piece of a parsed template.
#[derive(Debug, PartialEq, Eq)]
pub enum FormatToken {
    WindowId,
    Geometry,
    Width,
    Height,
    X,
    Y,
    /// Text emitted verbatim; never empty.
    Literal(String),
}

/// The tokens of a template, in the order they appear in it.
#[derive(Debug, PartialEq, Eq)]
pub struct Format(pub Vec<FormatToken>);

/// The mathematical value of a `FormatToken`.
pub enum TokenModel {
    WindowId,
    Geometry,
    Width,
    Height,
    X,
    Y,
    Literal(Seq<char>),
}

impl View for FormatToken {
    type V = TokenModel;

    open spec fn view(&self) -> TokenModel {
        match self {
            FormatToken::WindowId => TokenModel::WindowId,
            FormatToken::Geometry => TokenModel::Geometry,
            FormatToken::Width => TokenModel::Width,
            FormatToken::Height => TokenModel::Height,
            FormatToken::X => TokenModel::X,
            FormatToken::Y => TokenModel::Y,
            FormatToken::Literal(s) => TokenModel::Literal(s@),
        }
    }
}

impl View for Format {
    type V = Seq<TokenModel>;

    open spec fn view(&self) -> Seq<TokenModel> {
        self.0@.map_values(|t: FormatToken| t@)
    }
}

/// What went wrong while parsing a template.
#[derive(Clone, Copy, Debug, PartialEq, Eq, Structural)]
pub enum ParseErrorKind {
    /// `%` followed by a character that names no placeholder.
    UnrecognizedEscape,
    /// `%` as the last character of the template.
    TruncatedEscape,
    /// Input left over after the last token.
    TrailingContent,
}

/// A parse failure: its kind and the part of the template, from the point of
/// failure to the end, that could not be parsed.
#[derive(Debug, PartialEq, Eq)]
pub struct ParseError {
    pub kind: ParseErrorKind,
    pub fragment: String,
}

impl View for ParseError {
    type V = (ParseErrorKind, Seq<char>);

    open spec fn view(&self) -> (ParseErrorKind, Seq<char>) {
        (self.kind, self.fragment@)
    }
}

/// The opening words of the message for each kind of failure.
pub open spec fn message_head(kind: ParseErrorKind) -> Seq<char> {
    match kind {
        ParseErrorKind::UnrecognizedEscape => "unrecognized format sequence near \""@,
        ParseErrorKind::TruncatedEscape => "incomplete format sequence near \""@,
        ParseErrorKind::TrailingContent => "format string parse error near \""@,
    }
}

impl ParseError {
    /// A human-readable account of the failure, quoting the fragment:
    /// `unrecognized format sequence near "%q"`.
    pub fn message(&self) -> (r: String)
        ensures
            r@ == message_head(self.kind) + self.fragment@ + "\""@,
    {
        let head = match self.kind {
            ParseErrorKind::UnrecognizedEscape => "unrecognized format sequence near \"",
            ParseErrorKind::TruncatedEscape => "incomplete format sequence near \"",
            ParseErrorKind::TrailingContent => "format string parse error near \"",
        };
        head.to_owned().concat(self.fragment.as_str()).concat("\"")
    }
}

/// The escape marker.
pub const MARKER: char = '%';

/// The token that `%c` stands for, if any.
pub open spec fn escape_of(c: char) -> Option<TokenModel> {
    if c == 'i' {
        Some(TokenModel::WindowId)
    } else if c == 'g' {
        Some(TokenModel::Geometry)
    } else if c == 'w' {
        Some(TokenModel::Width)
    } else if c == 'h' {
        Some(TokenModel::Height)
    } else if c == 'x' {
        Some(TokenModel::X)
    } else if c == 'y' {
        Some(TokenModel::Y)
    } else if c == '%' {
        Some(TokenModel::Literal(seq!['%']))
    } else {
        None
    }
}

/// Length of the longest prefix of `s` that holds no `%`.
pub open spec fn literal_run_len(s: Seq<char>) -> nat
    decreases s.len(),
{
    if s.len() == 0 || s[0] == '%' {
        0
    } else {
        1 + literal_run_len(s.drop_first())
    }
}

/// The first token of a non-empty template `s` and how many characters it
/// takes, or the error found there.
pub open spec fn token_step(s: Seq<char>) -> Result<(TokenModel, nat), (ParseErrorKind, Seq<char>)> {
    if s[0] == '%' {
        if s.len() < 2 {
            Err((ParseErrorKind::TruncatedEscape, s))
        } else {
            match escape_of(s[1]) {
                Some(t) => Ok((t, 2nat)),
                None => Err((ParseErrorKind::UnrecognizedEscape, s)),
            }
        }
    } else {
        Ok((TokenModel::Literal(s.take(literal_run_len(s) as int)), literal_run_len(s)))
    }
}

/// `t` followed by the tokens of `r`, or the error of `r`.
pub open spec fn prepend(
    t: TokenModel,
    r: Result<Seq<TokenModel>, (ParseErrorKind, Seq<char>)>,
) -> Result<Seq<TokenModel>, (ParseErrorKind, Seq<char>)> {
    match r {
        Ok(ts) => Ok(seq![t] + ts),
        Err(e) => Err(e),
    }
}

/// The tokens of template `s`, read left to right, or the first error.
pub open spec fn parse_spec(s: Seq<char>) -> Result<Seq<TokenModel>, (ParseErrorKind, Seq<char>)>
    decreases s.len(),
    via parse_spec_decreases
{
    if s.len() == 0 {
        Ok(seq![])
    } else {
        match token_step(s) {
            Ok((t, n)) => prepend(t, parse_spec(s.skip(n as int))),
            Err(e) => Err(e),
        }
    }
}

/// A literal run is no longer than the text it is taken from, and is not
/// empty where the text starts with anything but `%`.
pub proof fn lemma_literal_run_len(s: Seq<char>)
    ensures
        literal_run_len(s) <= s.len(),
        s.len() > 0 && s[0] != '%' ==> literal_run_len(s) > 0,
        forall|i: int| 0 <= i < literal_run_len(s) ==> s[i] != '%',
        literal_run_len(s) < s.len() ==> s[literal_run_len(s) as int] == '%',
    decreases s.len(),
{
    if s.len() > 0 && s[0] != '%' {
        let t = s.drop_first();
        lemma_literal_run_len(t);
        assert forall|i: int| 0 <= i < literal_run_len(s) implies s[i] != '%' by {
            if i > 0 {
                assert(s[i] == t[i - 1]);
            }
        }
    }
}

#[via_fn]
proof fn parse_spec_decreases(s: Seq<char>) {
    lemma_literal_run_len(s);
}

/// The models of a sequence of tokens.
pub open spec fn views_of(v: Seq<FormatToken>) -> Seq<TokenModel> {
    v.map_values(|t: FormatToken| t@)
}

/// `prefix` followed by the tokens of `r`, or the error of `r`.
pub open spec fn prepend_all(
    prefix: Seq<TokenModel>,
    r: Result<Seq<TokenModel>, (ParseErrorKind, Seq<char>)>,
) -> Result<Seq<TokenModel>, (ParseErrorKind, Seq<char>)> {
    match r {
        Ok(ts) => Ok(prefix + ts),
        Err(e) => Err(e),
    }
}

/// `r` is what `token_step` gives at character `pos` of `s`, with the token's
/// end given as a position in `s`.
pub open spec fn step_agrees(r: Result<(FormatToken, usize), ParseError>, s: Seq<char>, pos: int) -> bool {
    match r {
        Ok((t, next)) => {
            &&& pos < next <= s.len()
            &&& token_step(s.skip(pos)) is Ok
            &&& token_step(s.skip(pos))->Ok_0 == (t@, (next - pos) as nat)
        },
        Err(e) => token_step(s.skip(pos)) is Err && token_step(s.skip(pos))->Err_0 == e@,
    }
}

/// A `%`-free prefix that ends at a `%` or at the end is the literal run.
proof fn lemma_run_len_exact(s: Seq<char>, k: nat)
    requires
        k <= s.len(),
        forall|i: int| 0 <= i < k ==> s[i] != '%',
        k == s.len() || s[k as int] == '%',
    ensures
        literal_run_len(s) == k,
    decreases k,
{
    if k > 0 {
        lemma_run_len_exact(s.drop_first(), (k - 1) as nat);
    }
}

/// The characters of `s`, in order.
fn collect_chars(s: &str) -> (r: Vec<char>)
    ensures
        r@ == s@,
{
    let mut out: Vec<char> = Vec::new();
    for c in it: s.chars()
        invariant
            out@ == it.seq().take(it.index() as int),
    {
        out.push(c);
    }
    assert(out@ == s@);
    out
}

/// Relies on `String::push`: appends `ch` to the end of the string.
pub assume_specification[ String::push ](s: &mut String, ch: char)
    ensures
        final(s)@ == old(s)@.push(ch),
;

/// Characters `from` up to `to` of `chars`, as an owned string.
fn char_range(chars: &Vec<char>, from: usize, to: usize) -> (r: String)
    requires
        from <= to <= chars.len(),
    ensures
        r@ == chars@.subrange(from as int, to as int),
{
    let mut out = String::new();
    let mut i: usize = from;
    while i < to
        invariant
            from <= i <= to <= chars.len(),
            out@ == chars@.subrange(from as int, i as int),
        decreases to - i,
    {
        out.push(chars[i]);
        i = i + 1;
        assert(out@ =~= chars@.subrange(from as int, i as int));
    }
    out
}

/// Reads the maximal run of non-`%` characters that starts at `pos`, and
/// returns it as a literal with the position just after it.
fn parse_literal(chars: &Vec<char>, pos: usize) -> (r: (FormatToken, usize))
    requires
        pos < chars.len(),
        chars[pos as int] != '%',
    ensures
        step_agrees(Ok(r), chars@, pos as int),
{
    let mut end: usize = pos;
    while end < chars.len() && chars[end] != MARKER
        invariant
            pos <= end <= chars.len(),
            forall|i: int| pos <= i < end ==> chars[i] != '%',
        decreases chars.len() - end,
    {
        end = end + 1;
    }
    proof {
        let s = chars@.skip(pos as int);
        lemma_run_len_exact(s, (end - pos) as nat);
        assert(s.take((end - pos) as int) =~= chars@.subrange(pos as int, end as int));
    }
    (FormatToken::Literal(char_range(chars, pos, end)), end)
}

/// Reads the two-character escape that starts at `pos`.
fn parse_format(chars: &Vec<char>, pos: usize) -> (r: Result<(FormatToken, usize), ParseError>)
    requires
        pos < chars.len(),
        chars[pos as int] == '%',
    ensures
        step_agrees(r, chars@, pos as int),
{
    let len = chars.len();
    let ghost s = chars@.skip(pos as int);
    if pos + 1 == len {
        assert(chars@.subrange(pos as int, len as int) =~= s);
        return Err(ParseError { kind: ParseErrorKind::TruncatedEscape, fragment: char_range(chars, pos, len) });
    }
    let c = chars[pos + 1];
    assert(s[1] == c);
    let t = if c == 'i' {
        FormatToken::WindowId
    } else if c == 'g' {
        FormatToken::Geometry
    } else if c == 'w' {
        FormatToken::Width
    } else if c == 'h' {
        FormatToken::Height
    } else if c == 'x' {
        FormatToken::X
    } else if c == 'y' {
        FormatToken::Y
    } else if c == MARKER {
        proof {
            reveal_strlit("%");
        }
        let lit = "%".to_owned();
        assert(lit@ =~= seq!['%']);
        FormatToken::Literal(lit)
    } else {
        assert(chars@.subrange(pos as int, len as int) =~= s);
        return Err(ParseError { kind: ParseErrorKind::UnrecognizedEscape, fragment: char_range(chars, pos, len) });
    };
    Ok((t, pos + 2))
}

/// Reads one token, escape or literal, at `pos`.
fn parse_anything(chars: &Vec<char>, pos: usize) -> (r: Result<(FormatToken, usize), ParseError>)
    requires
        pos < chars.len(),
    ensures
        step_agrees(r, chars@, pos as int),
{
    if chars[pos] == MARKER {
        parse_format(chars, pos)
    } else {
        Ok(parse_literal(chars, pos))
    }
}

/// Reads tokens until the input is used up or an error is found; on success
/// also returns how many characters were consumed.
fn parse_all(chars: &Vec<char>) -> (r: Result<(Vec<FormatToken>, usize), ParseError>)
    requires
    ensures
        match parse_spec(chars@) {
            Ok(ts) => r is Ok && views_of(r->Ok_0.0@) == ts && r->Ok_0.1 == chars.len(),
            Err(e) => r is Err && r->Err_0@ == e,
        },
{
    let mut tokens: Vec<FormatToken> = Vec::new();
    let mut pos: usize = 0;
    assert(chars@.skip(0) =~= chars@);
    assert(views_of(tokens@) + seq![] =~= seq![]);
    while pos < chars.len()
        invariant
                pos <= chars.len(),
            parse_spec(chars@) == prepend_all(views_of(tokens@), parse_spec(chars@.skip(pos as int))),
        decreases chars.len() - pos,
    {
        let ghost s = chars@.skip(pos as int);
        let ghost before = views_of(tokens@);
        match parse_anything(chars, pos) {
            Ok((t, next)) => {
                proof {
                    assert(s.skip((next - pos) as int) =~= chars@.skip(next as int));
                    assert(parse_spec(s) == prepend(t@, parse_spec(chars@.skip(next as int))));
                }
                tokens.push(t);
                pos = next;
                proof {
                    assert(views_of(tokens@) =~= before.push(t@));
                    let rest = parse_spec(chars@.skip(pos as int));
                    if rest is Ok {
                        assert(before + (seq![t@] + rest->Ok_0) =~= before.push(t@) + rest->Ok_0);
                    }
                }
            },
            Err(e) => {
                return Err(e);
            },
        }
    }
    assert(chars@.skip(pos as int) =~= Seq::<char>::empty());
    assert(views_of(tokens@) + seq![] =~= views_of(tokens@));
    Ok((tokens, pos))
}

/// Parses a template into its tokens.
///
/// Succeeds exactly when every `%` in `input` starts one of the escapes
/// `%i %g %w %h %x %y %%`, and then the tokens written back out give `input`;
/// otherwise reports the first bad escape together with the rest of the input
/// from it. Parsing is all or nothing.
pub fn parse_format_string(input: &str) -> (r: Result<Format, ParseError>)
    ensures
        match parse_spec(input@) {
            Ok(ts) => r is Ok && r->Ok_0@ == ts,
            Err(e) => r is Err && r->Err_0@ == e,
        },
        r is Ok ==> render(r->Ok_0@) == input@,
        r is Err ==> r->Err_0.kind != ParseErrorKind::TrailingContent,
{
    proof {
        if parse_spec(input@) is Err {
            lemma_error_fragment(input@);
        } else {
            lemma_round_trip(input@);
        }
    }
    let chars = collect_chars(input);
    match parse_all(&chars) {
        Ok((tokens, consumed)) => {
            if consumed == chars.len() {
                Ok(Format(tokens))
            } else {
                Err(ParseError {
                    kind: ParseErrorKind::TrailingContent,
                    fragment: char_range(&chars, consumed, chars.len()),
                })
            }
        },
        Err(e) => Err(e),
    }
}

/// How literal text is written in a template: each `%` doubled.
pub open spec fn literal_source(x: Seq<char>) -> Seq<char>
    decreases x.len(),
{
    if x.len() == 0 {
        seq![]
    } else {
        (if x[0] == '%' {
            seq!['%', '%']
        } else {
            seq![x[0]]
        }) + literal_source(x.drop_first())
    }
}

/// How a token is written in a template.
pub open spec fn token_source(t: TokenModel) -> Seq<char> {
    match t {
        TokenModel::WindowId => seq!['%', 'i'],
        TokenModel::Geometry => seq!['%', 'g'],
        TokenModel::Width => seq!['%', 'w'],
        TokenModel::Height => seq!['%', 'h'],
        TokenModel::X => seq!['%', 'x'],
        TokenModel::Y => seq!['%', 'y'],
        TokenModel::Literal(x) => literal_source(x),
    }
}

/// A template that reads as the tokens `ts`.
pub open spec fn render(ts: Seq<TokenModel>) -> Seq<char>
    decreases ts.len(),
{
    if ts.len() == 0 {
        seq![]
    } else {
        token_source(ts[0]) + render(ts.drop_first())
    }
}

/// Text without `%` is written as itself.
proof fn lemma_literal_source_plain(x: Seq<char>)
    requires
        forall|i: int| 0 <= i < x.len() ==> x[i] != '%',
    ensures
        literal_source(x) == x,
    decreases x.len(),
{
    if x.len() > 0 {
        let t = x.drop_first();
        assert forall|i: int| 0 <= i < t.len() implies t[i] != '%' by {
            assert(t[i] == x[i + 1]);
        }
        lemma_literal_source_plain(t);
        assert(seq![x[0]] + t =~= x);
    }
}

/// The first token that `token_step` reads is written as exactly the
/// characters it consumed.
proof fn lemma_token_step_source(s: Seq<char>)
    requires
        s.len() > 0,
        token_step(s) is Ok,
    ensures
        token_step(s)->Ok_0.1 <= s.len(),
        token_source(token_step(s)->Ok_0.0) == s.take(token_step(s)->Ok_0.1 as int),
{
    lemma_literal_run_len(s);
    if s[0] == '%' {
        assert(s.take(2) =~= seq!['%', s[1]]);
        if s[1] == '%' {
            let x = seq!['%'];
            assert(x.drop_first() =~= Seq::<char>::empty());
            assert(x[0] == '%');
            assert(literal_source(x.drop_first()) == Seq::<char>::empty());
            assert(literal_source(x) =~= seq!['%', '%'] + Seq::<char>::empty());
        }
    } else {
        let k = literal_run_len(s) as int;
        lemma_literal_source_plain(s.take(k));
    }
}

/// Writing out the tokens of a template that parses gives back that template.
pub proof fn lemma_round_trip(input: Seq<char>)
    requires
        parse_spec(input) is Ok,
    ensures
        render(parse_spec(input)->Ok_0) == input,
    decreases input.len(),
{
    if input.len() > 0 {
        lemma_token_step_source(input);
        lemma_literal_run_len(input);
        let (t, n) = token_step(input)->Ok_0;
        let rest = input.skip(n as int);
        lemma_round_trip(rest);
        let ts = parse_spec(rest)->Ok_0;
        assert((seq![t] + ts).drop_first() =~= ts);
        assert(input.take(n as int) + rest =~= input);
    } else {
        assert(parse_spec(input)->Ok_0 =~= Seq::<TokenModel>::empty());
    }
}

/// Text without `%` parses as one literal holding all of it.
pub proof fn lemma_plain_text(input: Seq<char>)
    requires
        input.len() > 0,
        forall|i: int| 0 <= i < input.len() ==> input[i] != '%',
    ensures
        parse_spec(input) is Ok,
        parse_spec(input)->Ok_0 == seq![TokenModel::Literal(input)],
{
    lemma_run_len_exact(input, input.len());
    assert(input[0] != '%');
    assert(input.take(input.len() as int) =~= input);
    let rest = input.skip(input.len() as int);
    assert(rest =~= Seq::<char>::empty());
    assert(parse_spec(rest) is Ok && parse_spec(rest)->Ok_0 =~= Seq::<TokenModel>::empty());
    assert(seq![TokenModel::Literal(input)] + Seq::<TokenModel>::empty() =~= seq![TokenModel::Literal(input)]);
}

/// `x` holds no `%`.
pub open spec fn no_marker(x: Seq<char>) -> bool {
    forall|j: int| 0 <= j < x.len() ==> x[j] != '%'
}

/// `t` is a literal taken from a run of plain text (not from `%%`).
pub open spec fn is_plain_literal(t: TokenModel) -> bool {
    t is Literal && no_marker(t->Literal_0)
}

/// Literals in a parse are never empty; each is either the `%` of a `%%`
/// escape or a run of text without `%`; and no two runs of plain text stand
/// side by side, since each run is read whole.
pub proof fn lemma_literals_maximal(input: Seq<char>)
    requires
        parse_spec(input) is Ok,
    ensures
        forall|i: int|
            0 <= i < parse_spec(input)->Ok_0.len() && (#[trigger] parse_spec(input)->Ok_0[i]) is Literal
                ==> {
                let x = parse_spec(input)->Ok_0[i]->Literal_0;
                &&& x.len() > 0
                &&& x == seq!['%'] || no_marker(x)
            },
        forall|i: int|
            0 <= i < parse_spec(input)->Ok_0.len() - 1 ==> !(is_plain_literal(
                #[trigger] parse_spec(input)->Ok_0[i],
            ) && is_plain_literal(parse_spec(input)->Ok_0[i + 1])),
    decreases input.len(),
{
    if input.len() > 0 {
        lemma_literal_run_len(input);
        let (t, n) = token_step(input)->Ok_0;
        let rest = input.skip(n as int);
        lemma_literals_maximal(rest);
        let tail = parse_spec(rest)->Ok_0;
        let ts = parse_spec(input)->Ok_0;
        assert(ts =~= seq![t] + tail);
        if t is Literal && t->Literal_0 != seq!['%'] {
            let k = n as int;
            assert(t->Literal_0 =~= input.take(k));
            assert(no_marker(t->Literal_0));
            if tail.len() > 0 {
                assert(rest[0] == input[k]);
                assert(rest[0] == '%');
                lemma_literal_run_len(rest);
                let t2 = tail[0];
                assert(t2 == token_step(rest)->Ok_0.0);
                if t2 is Literal {
                    assert(t2->Literal_0 == seq!['%']);
                    assert(t2->Literal_0[0] == '%');
                }
                assert(!is_plain_literal(t2));
            }
        }
        if t is Literal && t->Literal_0 == seq!['%'] {
            assert(t->Literal_0[0] == '%');
        }
        assert forall|i: int| 0 <= i < ts.len() - 1 implies !(is_plain_literal(#[trigger] ts[i]) && is_plain_literal(ts[i + 1])) by {
            if i > 0 {
                assert(ts[i] == tail[i - 1]);
                assert(ts[i + 1] == tail[i]);
            }
        }
        assert forall|i: int| 0 <= i < ts.len() && (#[trigger] ts[i]) is Literal implies {
            let x = ts[i]->Literal_0;
            &&& x.len() > 0
            &&& x == seq!['%'] || no_marker(x)
        } by {
            if i > 0 {
                assert(ts[i] == tail[i - 1]);
            }
        }
    }
}

/// A failed parse names the first bad escape: the fragment is the rest of the
/// input from a `%` that is either the last character or followed by a
/// character that names no escape. Input is never left over.
pub proof fn lemma_error_fragment(input: Seq<char>)
    requires
        parse_spec(input) is Err,
    ensures
        ({
            let (kind, frag) = parse_spec(input)->Err_0;
            &&& frag.len() > 0
            &&& frag.len() <= input.len()
            &&& frag == input.skip(input.len() - frag.len())
            &&& frag[0] == '%'
            &&& kind == ParseErrorKind::TruncatedEscape ==> frag.len() == 1
            &&& kind == ParseErrorKind::UnrecognizedEscape ==> frag.len() >= 2 && escape_of(frag[1]) is None
            &&& kind != ParseErrorKind::TrailingContent
        }),
    decreases input.len(),
{
    lemma_literal_run_len(input);
    if token_step(input) is Ok {
        let n = token_step(input)->Ok_0.1;
        let rest = input.skip(n as int);
        lemma_error_fragment(rest);
        let frag = parse_spec(rest)->Err_0.1;
        assert(rest.skip(rest.len() - frag.len()) =~= input.skip(input.len() - frag.len()));
    } else {
        assert(input.skip(0) =~= input);
    }
}

} // verus!
