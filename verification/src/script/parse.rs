use vstd::prelude::*;

verus! {

/// A token of a script.
#[derive(Debug, PartialEq, Eq, Clone)]
pub enum Token {
    BraceL,
    BraceR,
    BracketL,
    BracketR,
    ParenL,
    ParenR,
    QuoteDouble,
    QuoteSingle,
    Period,
    Comma,
    Colon,
    Semicolon,
    Linebreak,
    Octothorpe,
    Hyphen,
    Equal,
    Tilda,
    LessThan,
    QuestionMark,
    HoldStr(HoldStr),
    HoldUsize(HoldUsize),
    Else,
}

/// A token that holds its text.
#[derive(Debug, PartialEq, Eq, Clone)]
pub enum HoldStr {
    Numeric(String),
    AsciiAlpha(String),
    NonAsciiNonWhite(String),
}

/// A token that holds a count.
#[derive(Debug, PartialEq, Eq, Clone, Copy)]
pub enum HoldUsize {
    Spaces(usize),
    Tabs(usize),
}

/// The meaning of a `HoldStr`: its kind and its text as characters.
pub enum HoldStrV {
    Numeric(Seq<char>),
    AsciiAlpha(Seq<char>),
    NonAsciiNonWhite(Seq<char>),
}

/// The meaning of a `Token`.
pub enum TokenV {
    BraceL,
    BraceR,
    BracketL,
    BracketR,
    ParenL,
    ParenR,
    QuoteDouble,
    QuoteSingle,
    Period,
    Comma,
    Colon,
    Semicolon,
    Linebreak,
    Octothorpe,
    Hyphen,
    Equal,
    Tilda,
    LessThan,
    QuestionMark,
    HoldStr(HoldStrV),
    HoldUsize(HoldUsize),
    Else,
}

impl View for HoldStr {
    type V = HoldStrV;

    open spec fn view(&self) -> HoldStrV {
        match self {
            HoldStr::Numeric(s) => HoldStrV::Numeric(s@),
            HoldStr::AsciiAlpha(s) => HoldStrV::AsciiAlpha(s@),
            HoldStr::NonAsciiNonWhite(s) => HoldStrV::NonAsciiNonWhite(s@),
        }
    }
}

impl View for Token {
    type V = TokenV;

    open spec fn view(&self) -> TokenV {
        match self {
            Token::BraceL => TokenV::BraceL,
            Token::BraceR => TokenV::BraceR,
            Token::BracketL => TokenV::BracketL,
            Token::BracketR => TokenV::BracketR,
            Token::ParenL => TokenV::ParenL,
            Token::ParenR => TokenV::ParenR,
            Token::QuoteDouble => TokenV::QuoteDouble,
            Token::QuoteSingle => TokenV::QuoteSingle,
            Token::Period => TokenV::Period,
            Token::Comma => TokenV::Comma,
            Token::Colon => TokenV::Colon,
            Token::Semicolon => TokenV::Semicolon,
            Token::Linebreak => TokenV::Linebreak,
            Token::Octothorpe => TokenV::Octothorpe,
            Token::Hyphen => TokenV::Hyphen,
            Token::Equal => TokenV::Equal,
            Token::Tilda => TokenV::Tilda,
            Token::LessThan => TokenV::LessThan,
            Token::QuestionMark => TokenV::QuestionMark,
            Token::HoldStr(h) => TokenV::HoldStr(h@),
            Token::HoldUsize(h) => TokenV::HoldUsize(*h),
            Token::Else => TokenV::Else,
        }
    }
}

/// The contents of a sequence of tokens.
pub open spec fn tokens_view(ts: Seq<Token>) -> Seq<TokenV> {
    ts.map_values(|t: Token| t@)
}

impl Token {
    /// The text-holding part of the token, if it has one.
    pub fn hold_str(&self) -> (r: Option<&HoldStr>)
        ensures
            r matches Some(h) ==> self@ == TokenV::HoldStr(h@),
            r is None ==> !(self@ is HoldStr),
    {
        match self {
            Token::HoldStr(h) => Some(h),
            _ => None,
        }
    }

    /// The count-holding part of the token, if it has one.
    pub fn hold_u8(&self) -> (r: Option<HoldUsize>)
        ensures
            r matches Some(h) ==> self@ == TokenV::HoldUsize(h),
            r is None ==> !(self@ is HoldUsize),
    {
        match self {
            Token::HoldUsize(h) => Some(*h),
            _ => None,
        }
    }
}

impl HoldStr {
    /// The text of the token.
    pub fn unwrap(&self) -> (r: &str)
        ensures
            r@ == match self@ {
                HoldStrV::Numeric(s) => s,
                HoldStrV::AsciiAlpha(s) => s,
                HoldStrV::NonAsciiNonWhite(s) => s,
            },
    {
        match self {
            HoldStr::Numeric(s) => s.as_str(),
            HoldStr::NonAsciiNonWhite(s) => s.as_str(),
            HoldStr::AsciiAlpha(s) => s.as_str(),
        }
    }

    /// Whether the token may continue a variable name: always.
    pub fn is_var_tail(&self) -> (r: bool)
        ensures
            r,
    {
        match self {
            HoldStr::Numeric(_) => true,
            HoldStr::AsciiAlpha(_) => true,
            HoldStr::NonAsciiNonWhite(_) => true,
        }
    }

    /// Whether the token may begin a variable name: any but a number.
    pub fn is_var_head(&self) -> (r: bool)
        ensures
            r == !(self@ is Numeric),
    {
        match self {
            HoldStr::Numeric(_) => false,
            HoldStr::AsciiAlpha(_) => true,
            HoldStr::NonAsciiNonWhite(_) => true,
        }
    }
}

impl HoldUsize {
    /// The count held.
    pub fn unwrap(&self) -> (r: usize)
        ensures
            r == match *self {
                HoldUsize::Spaces(u) => u,
                HoldUsize::Tabs(u) => u,
            },
    {
        match self {
            HoldUsize::Spaces(u) => *u,
            HoldUsize::Tabs(u) => *u,
        }
    }
}


/// The kinds of the tokens and nodes of a script's syntax tree.
#[derive(Debug, Clone, Copy, PartialEq, Eq, Structural)]
pub enum SyntaxCozo {
    BracketL,
    BracketR,
    BraceL,
    BraceR,
    ParenL,
    ParenR,
    QuoteSingle,
    QuoteDouble,
    Comma,
    ArrowLeft,
    Equal,
    QuestionMark,
    Space,
    Numeric,
    AsciiAlpha,
    NonAsciiNonWhite,
    Bool,
    Json,
    List,
    Str,
    Var,
    VarDelimitedBySpaces,
    CommaSepareted,
    InBrace,
    InBracket,
    InParen,
    DataValue,
    DataValueDelimitedBySpaces,
    DataValueMidop,
    Func,
    Rule,
    HornClause,
    HornClauseMidop,
    HornClausePreop,
    Expr,
    Sentence,
    Script,
}

impl SyntaxCozo {
    /// The fixed text of a token kind that always has the same text.
    pub fn static_text(self) -> (r: Option<&'static str>)
        ensures
            r matches Some(t) ==> t@ == spec_static_text(self),
            r is None ==> spec_static_text(self).len() == 0,
    {
        proof {
            reveal_strlit("[");
            reveal_strlit("]");
            reveal_strlit("{");
            reveal_strlit("}");
            reveal_strlit("(");
            reveal_strlit(")");
            reveal_strlit("'");
            reveal_strlit("\"");
            reveal_strlit(",");
            reveal_strlit("<-");
            reveal_strlit("=");
            reveal_strlit("?");
            reveal_strlit(" ");
        }
        match self {
            SyntaxCozo::BracketL => Some("["),
            SyntaxCozo::BracketR => Some("]"),
            SyntaxCozo::BraceL => Some("{"),
            SyntaxCozo::BraceR => Some("}"),
            SyntaxCozo::ParenL => Some("("),
            SyntaxCozo::ParenR => Some(")"),
            SyntaxCozo::QuoteSingle => Some("'"),
            SyntaxCozo::QuoteDouble => Some("\""),
            SyntaxCozo::Comma => Some(","),
            SyntaxCozo::ArrowLeft => Some("<-"),
            SyntaxCozo::Equal => Some("="),
            SyntaxCozo::QuestionMark => Some("?"),
            SyntaxCozo::Space => Some(" "),
            _ => None,
        }
    }
}

/// The fixed text of a token kind, empty for kinds without one.
pub open spec fn spec_static_text(k: SyntaxCozo) -> Seq<char> {
    match k {
        SyntaxCozo::BracketL => seq!['['],
        SyntaxCozo::BracketR => seq![']'],
        SyntaxCozo::BraceL => seq!['{'],
        SyntaxCozo::BraceR => seq!['}'],
        SyntaxCozo::ParenL => seq!['('],
        SyntaxCozo::ParenR => seq![')'],
        SyntaxCozo::QuoteSingle => seq!['\''],
        SyntaxCozo::QuoteDouble => seq!['"'],
        SyntaxCozo::Comma => seq![','],
        SyntaxCozo::ArrowLeft => seq!['<', '-'],
        SyntaxCozo::Equal => seq!['='],
        SyntaxCozo::QuestionMark => seq!['?'],
        SyntaxCozo::Space => seq![' '],
        _ => seq![],
    }
}

/// A step of building a syntax tree: open a node, add a token with its
/// text, add a token of fixed text, or close the open node.
#[derive(Debug, Clone, PartialEq, Eq)]
pub enum BuildEvent {
    StartNode(SyntaxCozo),
    Token(SyntaxCozo, String),
    StaticToken(SyntaxCozo),
    FinishNode,
}

/// The meaning of a `BuildEvent`.
pub enum EventV {
    StartNode(SyntaxCozo),
    Token(SyntaxCozo, Seq<char>),
    StaticToken(SyntaxCozo),
    FinishNode,
}

impl View for BuildEvent {
    type V = EventV;

    open spec fn view(&self) -> EventV {
        match self {
            BuildEvent::StartNode(k) => EventV::StartNode(*k),
            BuildEvent::Token(k, t) => EventV::Token(*k, t@),
            BuildEvent::StaticToken(k) => EventV::StaticToken(*k),
            BuildEvent::FinishNode => EventV::FinishNode,
        }
    }
}

/// The contents of a sequence of build events.
pub open spec fn events_view(es: Seq<BuildEvent>) -> Seq<EventV> {
    es.map_values(|e: BuildEvent| e@)
}

/// What one parse does: its result, the position it stops at, and the
/// build events it emits.
pub struct Step {
    pub res: Result<(), Seq<char>>,
    pub pos: nat,
    pub events: Seq<EventV>,
}

/// A parse that fails with `msg` at `p`, consuming nothing.
pub open spec fn fail_at(msg: Seq<char>, p: nat) -> Option<Step> {
    Some(Step { res: Err(msg), pos: p, events: seq![] })
}

/// Whether positions move forward and stay within the tokens.
pub open spec fn forward(p: nat, q: nat, n: nat) -> bool {
    p <= q <= n
}

/// Parsing one token of kind `root` (an ASCII word, a non-ASCII word or a
/// number) at `p`: `None` where there is no token left to look at.
pub open spec fn leaf_step(ts: Seq<TokenV>, p: nat, root: SyntaxCozo) -> Option<Step> {
    if p >= ts.len() {
        None
    } else {
        match (root, ts[p as int]) {
            (SyntaxCozo::AsciiAlpha, TokenV::HoldStr(HoldStrV::AsciiAlpha(s))) => Some(
                Step { res: Ok(()), pos: p + 1, events: seq![EventV::Token(root, s)] },
            ),
            (SyntaxCozo::AsciiAlpha, _) => fail_at("not AsciiAlpha"@, p),
            (SyntaxCozo::NonAsciiNonWhite, TokenV::HoldStr(HoldStrV::NonAsciiNonWhite(s))) => Some(
                Step { res: Ok(()), pos: p + 1, events: seq![EventV::Token(root, s)] },
            ),
            (SyntaxCozo::NonAsciiNonWhite, _) => fail_at("not NonAsciiNonWhite"@, p),
            (SyntaxCozo::Numeric, TokenV::HoldStr(HoldStrV::Numeric(s))) => Some(
                Step { res: Ok(()), pos: p + 1, events: seq![EventV::Token(root, s)] },
            ),
            (SyntaxCozo::Numeric, _) => fail_at("not Numeric"@, p),
            _ => fail_at("yet implemented"@, p),
        }
    }
}

/// The events of `st` after `pre`, with its result and position.
pub open spec fn after(pre: Seq<EventV>, st: Step) -> Step {
    Step { res: st.res, pos: st.pos, events: pre + st.events }
}

/// Parsing the tail of a variable name at `p`: tries a number, an ASCII word
/// and a non-ASCII word in turn, and goes on while any of them matched.
pub open spec fn var_tails(ts: Seq<TokenV>, p: nat) -> Option<Step>
    decreases ts.len() - p, 0nat,
{
    match leaf_step(ts, p, SyntaxCozo::Numeric) {
        None => None,
        Some(a) => match leaf_step(ts, a.pos, SyntaxCozo::AsciiAlpha) {
            None => None,
            Some(b) => match leaf_step(ts, b.pos, SyntaxCozo::NonAsciiNonWhite) {
                None => None,
                Some(c) => {
                    let evs = a.events + b.events + c.events;
                    if a.res is Ok || b.res is Ok || c.res is Ok {
                        if p < c.pos <= ts.len() {
                            match var_tails(ts, c.pos) {
                                Some(r) => Some(after(evs, r)),
                                None => None,
                            }
                        } else {
                            None
                        }
                    } else {
                        Some(Step { res: Ok(()), pos: c.pos, events: evs })
                    }
                },
            },
        }
    }
}

/// Parsing a bracketed list at `p`: the opening token, then items separated
/// by commas up to the closing syntax; the node is closed on success.
pub open spec fn bracketed(
    ts: Seq<TokenV>,
    p: nat,
    root: SyntaxCozo,
    item: SyntaxCozo,
    end: SyntaxCozo,
) -> Option<Step>
    decreases ts.len() - p, 1nat, 1nat,
{
    if p < ts.len() {
        match sep_step(ts, p + 1, item, end) {
            Some(r) => if r.res is Ok {
                Some(
                    Step {
                        res: Ok(()),
                        pos: r.pos,
                        events: seq![EventV::StartNode(root)] + r.events + seq![EventV::FinishNode],
                    },
                )
            } else {
                Some(after(seq![EventV::StartNode(root)], r))
            },
            None => None,
        }
    } else {
        None
    }
}

/// Parsing `root` at `p`: `None` where the parser panics (it looks past the
/// last token) or does not return.
pub open spec fn parse_step(ts: Seq<TokenV>, p: nat, root: SyntaxCozo) -> Option<Step>
    decreases ts.len() - p, 1nat, 2nat,
{
    if p >= ts.len() {
        None
    } else {
        match root {
            SyntaxCozo::InBrace => match ts[p as int] {
                TokenV::BraceL => bracketed(
                    ts,
                    p,
                    root,
                    SyntaxCozo::VarDelimitedBySpaces,
                    SyntaxCozo::BraceR,
                ),
                _ => fail_at("missing BraceL({)"@, p),
            },
            SyntaxCozo::InBracket => match ts[p as int] {
                TokenV::BracketL => bracketed(
                    ts,
                    p,
                    root,
                    SyntaxCozo::DataValueDelimitedBySpaces,
                    SyntaxCozo::BracketR,
                ),
                _ => fail_at("missing BraceL([)"@, p),
            },
            SyntaxCozo::InParen => match ts[p as int] {
                TokenV::ParenL => bracketed(
                    ts,
                    p,
                    root,
                    SyntaxCozo::DataValueDelimitedBySpaces,
                    SyntaxCozo::ParenR,
                ),
                _ => fail_at("missing ParenL(()"@, p),
            },
            SyntaxCozo::VarDelimitedBySpaces => match ts[p as int] {
                TokenV::HoldUsize(HoldUsize::Spaces(_)) | TokenV::Linebreak => match parse_step(
                    ts,
                    p + 1,
                    SyntaxCozo::VarDelimitedBySpaces,
                ) {
                    Some(r) => Some(after(seq![EventV::StartNode(root)], r)),
                    None => None,
                },
                _ => fail_at("missing space or linebreak"@, p),
            },
            SyntaxCozo::Var => match leaf_step(ts, p, SyntaxCozo::AsciiAlpha) {
                None => None,
                Some(a) => match leaf_step(ts, a.pos, SyntaxCozo::NonAsciiNonWhite) {
                    None => None,
                    Some(b) => {
                        let evs = seq![EventV::StartNode(root)] + a.events + b.events;
                        if a.res is Ok || b.res is Ok {
                            if p <= b.pos <= ts.len() {
                                match var_tails(ts, b.pos) {
                                    Some(r) => Some(after(evs, r)),
                                    None => None,
                                }
                            } else {
                                None
                            }
                        } else {
                            Some(
                                Step {
                                    res: Err("var starts with AsciiAlpha/NonAsciiNonWhite"@),
                                    pos: b.pos,
                                    events: evs,
                                },
                            )
                        }
                    },
                },
            },
            SyntaxCozo::AsciiAlpha | SyntaxCozo::NonAsciiNonWhite | SyntaxCozo::Numeric => leaf_step(
                ts,
                p,
                root,
            ),
            _ => fail_at("yet implemented"@, p),
        }
    }
}

/// Parsing `item`s separated by commas at `p`, up to `end`.
pub open spec fn sep_step(ts: Seq<TokenV>, p: nat, item: SyntaxCozo, end: SyntaxCozo) -> Option<
    Step,
>
    decreases ts.len() - p, 2nat, 0nat,
{
    match parse_step(ts, p, item) {
        None => None,
        Some(a) => if !forward(p, a.pos, ts.len()) {
            None
        } else if a.res is Ok {
            if a.pos < ts.len() && ts[a.pos as int] is Comma {
                if p < a.pos + 1 {
                    match sep_step(ts, a.pos + 1, item, end) {
                        Some(r) => Some(after(a.events + seq![EventV::StaticToken(SyntaxCozo::Comma)], r)),
                        None => None,
                    }
                } else {
                    None
                }
            } else {
                match parse_step(ts, a.pos, end) {
                    None => None,
                    Some(b) => if b.res is Ok {
                        Some(Step { res: Ok(()), pos: b.pos, events: a.events + b.events })
                    } else if p < b.pos && forward(a.pos, b.pos, ts.len()) {
                        match sep_step(ts, b.pos, item, end) {
                            Some(r) => Some(after(a.events + b.events, r)),
                            None => None,
                        }
                    } else {
                        None
                    },
                }
            }
        } else {
            match parse_step(ts, a.pos, end) {
                None => None,
                Some(b) => match b.res {
                    Ok(_) => Some(Step { res: Ok(()), pos: b.pos, events: a.events + b.events }),
                    Err(e) => Some(
                        Step {
                            res: Err(e + ": separeted_by_comma failed to match endsyntax"@),
                            pos: b.pos,
                            events: a.events + b.events,
                        },
                    ),
                },
            }
        }
    }
}


proof fn lemma_leaf_forward(ts: Seq<TokenV>, p: nat, root: SyntaxCozo)
    ensures
        leaf_step(ts, p, root) matches Some(st) ==> p <= st.pos <= ts.len() && st.pos <= p + 1
            && (st.res is Ok <==> st.pos == p + 1),
{
}

proof fn lemma_var_tails_forward(ts: Seq<TokenV>, p: nat)
    ensures
        var_tails(ts, p) matches Some(st) ==> p <= st.pos <= ts.len(),
    decreases ts.len() - p, 0nat,
{
    lemma_leaf_forward(ts, p, SyntaxCozo::Numeric);
    if let Some(a) = leaf_step(ts, p, SyntaxCozo::Numeric) {
        lemma_leaf_forward(ts, a.pos, SyntaxCozo::AsciiAlpha);
        if let Some(b) = leaf_step(ts, a.pos, SyntaxCozo::AsciiAlpha) {
            lemma_leaf_forward(ts, b.pos, SyntaxCozo::NonAsciiNonWhite);
            if let Some(c) = leaf_step(ts, b.pos, SyntaxCozo::NonAsciiNonWhite) {
                if (a.res is Ok || b.res is Ok || c.res is Ok) && p < c.pos <= ts.len() {
                    lemma_var_tails_forward(ts, c.pos);
                }
            }
        }
    }
}

/// Law: a parse never moves backwards nor past the last token, and a parse
/// that succeeds has consumed at least one token.
pub proof fn lemma_parse_forward(ts: Seq<TokenV>, p: nat, root: SyntaxCozo)
    ensures
        parse_step(ts, p, root) matches Some(st) ==> p <= st.pos <= ts.len() && (st.res is Ok
            ==> p < st.pos),
    decreases ts.len() - p, 1nat, 2nat,
{
    if p < ts.len() {
        match root {
            SyntaxCozo::InBrace => lemma_bracketed_forward(
                ts,
                p,
                root,
                SyntaxCozo::VarDelimitedBySpaces,
                SyntaxCozo::BraceR,
            ),
            SyntaxCozo::InBracket => lemma_bracketed_forward(
                ts,
                p,
                root,
                SyntaxCozo::DataValueDelimitedBySpaces,
                SyntaxCozo::BracketR,
            ),
            SyntaxCozo::InParen => lemma_bracketed_forward(
                ts,
                p,
                root,
                SyntaxCozo::DataValueDelimitedBySpaces,
                SyntaxCozo::ParenR,
            ),
            SyntaxCozo::VarDelimitedBySpaces => {
                lemma_parse_forward(ts, p + 1, SyntaxCozo::VarDelimitedBySpaces);
            },
            SyntaxCozo::Var => {
                lemma_leaf_forward(ts, p, SyntaxCozo::AsciiAlpha);
                if let Some(a) = leaf_step(ts, p, SyntaxCozo::AsciiAlpha) {
                    lemma_leaf_forward(ts, a.pos, SyntaxCozo::NonAsciiNonWhite);
                    if let Some(b) = leaf_step(ts, a.pos, SyntaxCozo::NonAsciiNonWhite) {
                        if p <= b.pos <= ts.len() {
                            lemma_var_tails_forward(ts, b.pos);
                        }
                    }
                }
            },
            _ => {
                lemma_leaf_forward(ts, p, root);
            },
        }
    }
}

proof fn lemma_bracketed_forward(
    ts: Seq<TokenV>,
    p: nat,
    root: SyntaxCozo,
    item: SyntaxCozo,
    end: SyntaxCozo,
)
    ensures
        bracketed(ts, p, root, item, end) matches Some(st) ==> p < st.pos <= ts.len(),
    decreases ts.len() - p, 1nat, 1nat,
{
    if p < ts.len() {
        lemma_sep_forward(ts, p + 1, item, end);
    }
}

proof fn lemma_sep_forward(ts: Seq<TokenV>, p: nat, item: SyntaxCozo, end: SyntaxCozo)
    ensures
        sep_step(ts, p, item, end) matches Some(st) ==> p <= st.pos <= ts.len(),
    decreases ts.len() - p, 2nat, 0nat,
{
    lemma_parse_forward(ts, p, item);
    if let Some(a) = parse_step(ts, p, item) {
        if forward(p, a.pos, ts.len()) {
            lemma_parse_forward(ts, a.pos, end);
            if a.res is Ok {
                if a.pos < ts.len() && ts[a.pos as int] is Comma {
                    lemma_sep_forward(ts, a.pos + 1, item, end);
                } else if let Some(b) = parse_step(ts, a.pos, end) {
                    if !(b.res is Ok) && p < b.pos && forward(a.pos, b.pos, ts.len()) {
                        lemma_sep_forward(ts, b.pos, item, end);
                    }
                }
            }
        }
    }
}

/// A result of the parser and the result that the specification gives agree.
pub open spec fn same_result(x: Result<(), String>, y: Result<(), Seq<char>>) -> bool {
    match (x, y) {
        (Ok(_), Ok(_)) => true,
        (Err(a), Err(b)) => a@ == b,
        _ => false,
    }
}

/// `r` is what the parser gives for the step `spec`, from events `ev0` to
/// position `pos1` and events `ev1`.
pub open spec fn outcome(
    r: Option<Result<(), String>>,
    spec: Option<Step>,
    ev0: Seq<EventV>,
    pos1: nat,
    ev1: Seq<EventV>,
) -> bool {
    match spec {
        None => r is None,
        Some(st) => r matches Some(x) && same_result(x, st.res) && pos1 == st.pos && ev1 == ev0
            + st.events,
    }
}

/// A recursive-descent parser over a token list that records the syntax
/// tree it builds as a list of build events.
pub struct CSTreeParser {
    tokens: Vec<Token>,
    pos: usize,
    events: Vec<BuildEvent>,
}

impl CSTreeParser {
    /// The tokens being parsed.
    pub closed spec fn tokens_v(&self) -> Seq<TokenV> {
        tokens_view(self.tokens@)
    }

    /// The position of the next token.
    pub closed spec fn pos_v(&self) -> nat {
        self.pos as nat
    }

    /// The build events recorded so far.
    pub closed spec fn events_v(&self) -> Seq<EventV> {
        events_view(self.events@)
    }

    /// The position lies within the tokens.
    pub closed spec fn wf(&self) -> bool {
        self.pos <= self.tokens.len()
    }

    /// A parser at the first of `tokens`, with no event recorded.
    pub fn new(tokens: Vec<Token>) -> (res: Self)
        ensures
            res.tokens_v() == tokens_view(tokens@),
            res.pos_v() == 0,
            res.events_v() == Seq::<EventV>::empty(),
            res.wf(),
    {
        let res = CSTreeParser { tokens, pos: 0, events: Vec::new() };
        assert(res.events_v() =~= Seq::<EventV>::empty());
        res
    }

    /// The build events recorded, in order.
    pub fn finish(self) -> (res: Vec<BuildEvent>)
        ensures
            events_view(res@) == self.events_v(),
    {
        self.events
    }

    fn record(&mut self, e: BuildEvent)
        ensures
            final(self).events_v() == old(self).events_v().push(e@),
            final(self).tokens_v() == old(self).tokens_v(),
            final(self).pos_v() == old(self).pos_v(),
            final(self).wf() == old(self).wf(),
    {
        let ghost before = self.events_v();
        self.events.push(e);
        assert(self.events_v() =~= before.push(e@));
    }

    /// Consumes the next token if it is a run of spaces, and tells whether it did.
    pub fn next_ascii_spaces(&mut self) -> (r: bool)
        requires
            old(self).wf(),
        ensures
            r == (old(self).pos_v() < old(self).tokens_v().len() && old(self).tokens_v()[old(
                self,
            ).pos_v() as int] matches TokenV::HoldUsize(HoldUsize::Spaces(_))),
            final(self).pos_v() == old(self).pos_v() + if r {
                1nat
            } else {
                0nat
            },
            final(self).events_v() == old(self).events_v(),
            final(self).tokens_v() == old(self).tokens_v(),
            final(self).wf(),
    {
        if self.pos < self.tokens.len() {
            let spaces = match &self.tokens[self.pos] {
                Token::HoldUsize(HoldUsize::Spaces(_)) => true,
                _ => false,
            };
            if spaces {
                self.pos = self.pos + 1;
            }
            spaces
        } else {
            false
        }
    }

    /// Consumes the next token if it is a run of spaces, recording a space token.
    pub fn skip_ascii_spaces(&mut self)
        requires
            old(self).wf(),
        ensures
            ({
                let ts = old(self).tokens_v();
                let p = old(self).pos_v();
                if p < ts.len() && ts[p as int] matches TokenV::HoldUsize(HoldUsize::Spaces(_)) {
                    final(self).pos_v() == p + 1 && final(self).events_v() == old(self).events_v().push(
                        EventV::StaticToken(SyntaxCozo::Space),
                    )
                } else {
                    final(self).pos_v() == p && final(self).events_v() == old(self).events_v()
                }
            }),
            final(self).tokens_v() == old(self).tokens_v(),
            final(self).wf(),
    {
        if self.next_ascii_spaces() {
            self.record(BuildEvent::StaticToken(SyntaxCozo::Space));
        }
    }

    fn var_tails_exec(&mut self) -> (r: Option<Result<(), String>>)
        requires
            old(self).wf(),
        ensures
            final(self).tokens_v() == old(self).tokens_v(),
            final(self).wf(),
            outcome(
                r,
                var_tails(old(self).tokens_v(), old(self).pos_v()),
                old(self).events_v(),
                final(self).pos_v(),
                final(self).events_v(),
            ),
        decreases old(self).tokens_v().len() - old(self).pos_v(),
    {
        let ghost ts = self.tokens_v();
        let ghost p = self.pos_v();
        let ghost ev0 = self.events_v();
        proof {
            lemma_leaf_forward(ts, p, SyntaxCozo::Numeric);
        }
        let a = self.leaf(SyntaxCozo::Numeric);
        if a.is_none() {
            return None;
        }
        let ghost la = leaf_step(ts, p, SyntaxCozo::Numeric).unwrap();
        proof {
            lemma_leaf_forward(ts, la.pos, SyntaxCozo::AsciiAlpha);
        }
        let b = self.leaf(SyntaxCozo::AsciiAlpha);
        if b.is_none() {
            return None;
        }
        let ghost lb = leaf_step(ts, la.pos, SyntaxCozo::AsciiAlpha).unwrap();
        proof {
            lemma_leaf_forward(ts, lb.pos, SyntaxCozo::NonAsciiNonWhite);
        }
        let c = self.leaf(SyntaxCozo::NonAsciiNonWhite);
        if c.is_none() {
            return None;
        }
        let ghost lc = leaf_step(ts, lb.pos, SyntaxCozo::NonAsciiNonWhite).unwrap();
        let a_ok = match a {
            Some(Ok(_)) => true,
            _ => false,
        };
        let b_ok = match b {
            Some(Ok(_)) => true,
            _ => false,
        };
        let c_ok = match c {
            Some(Ok(_)) => true,
            _ => false,
        };
        let ghost evs = la.events + lb.events + lc.events;
        proof {
            assert(a_ok == la.res is Ok);
            assert(b_ok == lb.res is Ok);
            assert(c_ok == lc.res is Ok);
            assert(self.events_v() =~= ev0 + evs);
            assert(self.pos_v() == lc.pos);
        }
        if a_ok || b_ok || c_ok {
            let r = self.var_tails_exec();
            proof {
                if let Some(st) = var_tails(ts, lc.pos) {
                    assert(self.events_v() =~= ev0 + (evs + st.events));
                }
            }
            r
        } else {
            Some(Ok(()))
        }
    }

    fn bracketed_exec(&mut self, root: SyntaxCozo, item: SyntaxCozo, end: SyntaxCozo) -> (r:
        Option<Result<(), String>>)
        requires
            old(self).wf(),
            old(self).pos_v() < old(self).tokens_v().len(),
        ensures
            final(self).tokens_v() == old(self).tokens_v(),
            final(self).wf(),
            outcome(
                r,
                bracketed(old(self).tokens_v(), old(self).pos_v(), root, item, end),
                old(self).events_v(),
                final(self).pos_v(),
                final(self).events_v(),
            ),
        decreases old(self).tokens_v().len() - old(self).pos_v(), 1nat, 1nat,
    {
        let ghost ts = self.tokens_v();
        let ghost ev0 = self.events_v();
        self.record(BuildEvent::StartNode(root));
        self.pos = self.pos + 1;
        let r = self.sep_exec(item, end);
        match r {
            None => None,
            Some(Ok(_)) => {
                self.record(BuildEvent::FinishNode);
                proof {
                    let st = sep_step(ts, (old(self).pos_v() + 1) as nat, item, end).unwrap();
                    assert(self.events_v() =~= ev0 + (seq![EventV::StartNode(root)] + st.events
                        + seq![EventV::FinishNode]));
                }
                Some(Ok(()))
            },
            Some(Err(e)) => {
                proof {
                    let st = sep_step(ts, (old(self).pos_v() + 1) as nat, item, end).unwrap();
                    assert(self.events_v() =~= ev0 + (seq![EventV::StartNode(root)] + st.events));
                }
                Some(Err(e))
            },
        }
    }

    #[verifier::rlimit(40)]
    fn sep_exec(&mut self, item: SyntaxCozo, end: SyntaxCozo) -> (r: Option<Result<(), String>>)
        requires
            old(self).wf(),
        ensures
            final(self).tokens_v() == old(self).tokens_v(),
            final(self).wf(),
            outcome(
                r,
                sep_step(old(self).tokens_v(), old(self).pos_v(), item, end),
                old(self).events_v(),
                final(self).pos_v(),
                final(self).events_v(),
            ),
        decreases old(self).tokens_v().len() - old(self).pos_v(), 2nat, 0nat,
    {
        let ghost ts = self.tokens_v();
        let ghost p = self.pos_v();
        let ghost ev0 = self.events_v();
        proof {
            lemma_parse_forward(ts, p, item);
        }
        let a = self.parse_checked(item);
        if a.is_none() {
            return None;
        }
        let ghost sa = parse_step(ts, p, item).unwrap();
        let ghost ev1 = self.events_v();
        proof {
            lemma_parse_forward(ts, sa.pos, end);
        }
        let a_ok = match a {
            Some(Ok(_)) => true,
            _ => false,
        };
        assert(a_ok == sa.res is Ok);
        if a_ok {
            let comma = self.pos < self.tokens.len() && match &self.tokens[self.pos] {
                Token::Comma => true,
                _ => false,
            };
            proof {
                if self.pos < self.tokens.len() {
                    assert(ts[sa.pos as int] == self.tokens@[self.pos as int]@);
                }
            }
            if comma {
                self.pos = self.pos + 1;
                self.record(BuildEvent::StaticToken(SyntaxCozo::Comma));
                let r = self.sep_exec(item, end);
                proof {
                    if let Some(st) = sep_step(ts, sa.pos + 1, item, end) {
                        assert(self.events_v() =~= ev0 + (sa.events + seq![
                            EventV::StaticToken(SyntaxCozo::Comma),
                        ] + st.events));
                    }
                }
                r
            } else {
                let b = self.parse_checked(end);
                if b.is_none() {
                    return None;
                }
                let ghost sb = parse_step(ts, sa.pos, end).unwrap();
                let b_ok = match b {
                    Some(Ok(_)) => true,
                    _ => false,
                };
                assert(b_ok == sb.res is Ok);
                if b_ok {
                    assert(self.events_v() =~= ev0 + (sa.events + sb.events));
                    Some(Ok(()))
                } else {
                    let r = self.sep_exec(item, end);
                    proof {
                        if let Some(st) = sep_step(ts, sb.pos, item, end) {
                            assert(self.events_v() =~= ev0 + (sa.events + sb.events + st.events));
                        }
                    }
                    r
                }
            }
        } else {
            let b = self.parse_checked(end);
            if b.is_none() {
                return None;
            }
            let ghost sb = parse_step(ts, sa.pos, end).unwrap();
            assert(self.events_v() =~= ev0 + (sa.events + sb.events));
            match b {
                Some(Ok(_)) => Some(Ok(())),
                Some(Err(e)) => {
                    let mut e = e;
                    e.append(": separeted_by_comma failed to match endsyntax");
                    Some(Err(e))
                },
                None => None,
            }
        }
    }

    fn gap_exec(&mut self) -> (r: Option<Result<(), String>>)
        requires
            old(self).wf(),
            old(self).pos_v() < old(self).tokens_v().len(),
        ensures
            final(self).tokens_v() == old(self).tokens_v(),
            final(self).wf(),
            outcome(
                r,
                parse_step(old(self).tokens_v(), old(self).pos_v(), SyntaxCozo::VarDelimitedBySpaces),
                old(self).events_v(),
                final(self).pos_v(),
                final(self).events_v(),
            ),
        decreases old(self).tokens_v().len() - old(self).pos_v(), 1nat, 1nat,
    {
        let ghost ts = self.tokens_v();
        let ghost p = self.pos_v();
        let ghost ev0 = self.events_v();
        assert(ts[p as int] == self.tokens@[p as int]@);
        let gap = match &self.tokens[self.pos] {
            Token::HoldUsize(HoldUsize::Spaces(_)) => true,
            Token::Linebreak => true,
            _ => false,
        };
        if gap {
            self.record(BuildEvent::StartNode(SyntaxCozo::VarDelimitedBySpaces));
            self.pos = self.pos + 1;
            let r = self.parse_checked(SyntaxCozo::VarDelimitedBySpaces);
            proof {
                if let Some(st) = parse_step(ts, (p + 1) as nat, SyntaxCozo::VarDelimitedBySpaces) {
                    assert(self.events_v() =~= ev0 + (seq![
                        EventV::StartNode(SyntaxCozo::VarDelimitedBySpaces),
                    ] + st.events));
                }
            }
            r
        } else {
            assert(self.events_v() =~= ev0 + Seq::<EventV>::empty());
            Some(Err("missing space or linebreak".to_owned()))
        }
    }

    fn var_exec(&mut self) -> (r: Option<Result<(), String>>)
        requires
            old(self).wf(),
            old(self).pos_v() < old(self).tokens_v().len(),
        ensures
            final(self).tokens_v() == old(self).tokens_v(),
            final(self).wf(),
            outcome(
                r,
                parse_step(old(self).tokens_v(), old(self).pos_v(), SyntaxCozo::Var),
                old(self).events_v(),
                final(self).pos_v(),
                final(self).events_v(),
            ),
    {
        let ghost ts = self.tokens_v();
        let ghost p = self.pos_v();
        let ghost ev0 = self.events_v();
        self.record(BuildEvent::StartNode(SyntaxCozo::Var));
        proof {
            lemma_leaf_forward(ts, p, SyntaxCozo::AsciiAlpha);
        }
        let a = self.leaf(SyntaxCozo::AsciiAlpha);
        if a.is_none() {
            return None;
        }
        let ghost la = leaf_step(ts, p, SyntaxCozo::AsciiAlpha).unwrap();
        proof {
            lemma_leaf_forward(ts, la.pos, SyntaxCozo::NonAsciiNonWhite);
        }
        let b = self.leaf(SyntaxCozo::NonAsciiNonWhite);
        if b.is_none() {
            return None;
        }
        let ghost lb = leaf_step(ts, la.pos, SyntaxCozo::NonAsciiNonWhite).unwrap();
        let a_ok = match a {
            Some(Ok(_)) => true,
            _ => false,
        };
        let b_ok = match b {
            Some(Ok(_)) => true,
            _ => false,
        };
        let ghost evs = seq![EventV::StartNode(SyntaxCozo::Var)] + la.events + lb.events;
        proof {
            assert(a_ok == la.res is Ok);
            assert(b_ok == lb.res is Ok);
            assert(self.events_v() =~= ev0 + evs);
            assert(self.pos_v() == lb.pos);
        }
        if a_ok || b_ok {
            let r = self.var_tails_exec();
            proof {
                if let Some(st) = var_tails(ts, lb.pos) {
                    assert(self.events_v() =~= ev0 + (evs + st.events));
                }
            }
            r
        } else {
            Some(Err("var starts with AsciiAlpha/NonAsciiNonWhite".to_owned()))
        }
    }

    /// Parses `root` at the current position, recording build events, or
    /// gives `None` where the parser would panic (it looks past the last
    /// token) or would not return.
    pub fn parse_checked(&mut self, root: SyntaxCozo) -> (r: Option<Result<(), String>>)
        requires
            old(self).wf(),
        ensures
            final(self).tokens_v() == old(self).tokens_v(),
            final(self).wf(),
            outcome(
                r,
                parse_step(old(self).tokens_v(), old(self).pos_v(), root),
                old(self).events_v(),
                final(self).pos_v(),
                final(self).events_v(),
            ),
        decreases old(self).tokens_v().len() - old(self).pos_v(), 1nat, 2nat,
    {
        if self.pos >= self.tokens.len() {
            return None;
        }
        let ghost ts = self.tokens_v();
        let ghost p = self.pos_v();
        let ghost ev0 = self.events_v();
        assert(ts[p as int] == self.tokens@[p as int]@);
        match root {
            SyntaxCozo::InBrace => {
                let open = match &self.tokens[self.pos] {
                    Token::BraceL => true,
                    _ => false,
                };
                if open {
                    self.bracketed_exec(root, SyntaxCozo::VarDelimitedBySpaces, SyntaxCozo::BraceR)
                } else {
                    assert(self.events_v() =~= ev0 + Seq::<EventV>::empty());
                    Some(Err("missing BraceL({)".to_owned()))
                }
            },
            SyntaxCozo::InBracket => {
                let open = match &self.tokens[self.pos] {
                    Token::BracketL => true,
                    _ => false,
                };
                if open {
                    self.bracketed_exec(
                        root,
                        SyntaxCozo::DataValueDelimitedBySpaces,
                        SyntaxCozo::BracketR,
                    )
                } else {
                    assert(self.events_v() =~= ev0 + Seq::<EventV>::empty());
                    Some(Err("missing BraceL([)".to_owned()))
                }
            },
            SyntaxCozo::InParen => {
                let open = match &self.tokens[self.pos] {
                    Token::ParenL => true,
                    _ => false,
                };
                if open {
                    self.bracketed_exec(
                        root,
                        SyntaxCozo::DataValueDelimitedBySpaces,
                        SyntaxCozo::ParenR,
                    )
                } else {
                    assert(self.events_v() =~= ev0 + Seq::<EventV>::empty());
                    Some(Err("missing ParenL(()".to_owned()))
                }
            },
            SyntaxCozo::VarDelimitedBySpaces => self.gap_exec(),
            SyntaxCozo::Var => self.var_exec(),
            SyntaxCozo::AsciiAlpha | SyntaxCozo::NonAsciiNonWhite | SyntaxCozo::Numeric => {
                self.leaf(root)
            },
            _ => {
                assert(self.events_v() =~= ev0 + Seq::<EventV>::empty());
                Some(Err("yet implemented".to_owned()))
            },
        }
    }

    fn leaf(&mut self, root: SyntaxCozo) -> (r: Option<Result<(), String>>)
        requires
            old(self).wf(),
        ensures
            final(self).tokens_v() == old(self).tokens_v(),
            final(self).wf(),
            outcome(
                r,
                leaf_step(old(self).tokens_v(), old(self).pos_v(), root),
                old(self).events_v(),
                final(self).pos_v(),
                final(self).events_v(),
            ),
    {
        if self.pos >= self.tokens.len() {
            return None;
        }
        let ghost ev0 = self.events_v();
        let hit: Option<String> = match (root, &self.tokens[self.pos]) {
            (SyntaxCozo::AsciiAlpha, Token::HoldStr(HoldStr::AsciiAlpha(s))) => Some(s.clone()),
            (SyntaxCozo::NonAsciiNonWhite, Token::HoldStr(HoldStr::NonAsciiNonWhite(s))) => Some(
                s.clone(),
            ),
            (SyntaxCozo::Numeric, Token::HoldStr(HoldStr::Numeric(s))) => Some(s.clone()),
            _ => None,
        };
        match hit {
            Some(s) => {
                self.pos = self.pos + 1;
                self.record(BuildEvent::Token(root, s));
                assert(self.events_v() =~= ev0 + seq![EventV::Token(root, s@)]);
                Some(Ok(()))
            },
            None => {
                let r = match root {
                    SyntaxCozo::AsciiAlpha => Err("not AsciiAlpha".to_owned()),
                    SyntaxCozo::NonAsciiNonWhite => Err("not NonAsciiNonWhite".to_owned()),
                    SyntaxCozo::Numeric => Err("not Numeric".to_owned()),
                    _ => Err("yet implemented".to_owned()),
                };
                assert(self.events_v() =~= ev0 + Seq::<EventV>::empty());
                Some(r)
            },
        }
    }
}


/// Whether the token at `p` is a run of spaces.
pub open spec fn spaces_at(ts: Seq<TokenV>, p: nat) -> bool {
    p < ts.len() && ts[p as int] matches TokenV::HoldUsize(HoldUsize::Spaces(_))
}

/// Parsing `kind` between optional runs of spaces at `p`.
pub open spec fn delimited_step(ts: Seq<TokenV>, p: nat, kind: SyntaxCozo) -> Option<Step> {
    let p1: nat = if spaces_at(ts, p) {
        p + 1
    } else {
        p
    };
    let e1: Seq<EventV> = if spaces_at(ts, p) {
        seq![EventV::StaticToken(SyntaxCozo::Space)]
    } else {
        seq![]
    };
    match parse_step(ts, p1, kind) {
        None => None,
        Some(r) => if r.res is Err {
            Some(after(e1, r))
        } else {
            let p2: nat = if spaces_at(ts, r.pos) {
                r.pos + 1
            } else {
                r.pos
            };
            let e2: Seq<EventV> = if spaces_at(ts, r.pos) {
                seq![EventV::StaticToken(SyntaxCozo::Space)]
            } else {
                seq![]
            };
            Some(Step { res: Ok(()), pos: p2, events: e1 + r.events + e2 })
        },
    }
}

impl CSTreeParser {
    /// Parses `root` at the current position, recording the build events of
    /// the nodes and tokens it reads.
    pub fn parse(&mut self, root: SyntaxCozo) -> (r: Result<(), String>)
        requires
            old(self).wf(),
            parse_step(old(self).tokens_v(), old(self).pos_v(), root) is Some,
        ensures
            final(self).tokens_v() == old(self).tokens_v(),
            final(self).wf(),
            outcome(
                Some(r),
                parse_step(old(self).tokens_v(), old(self).pos_v(), root),
                old(self).events_v(),
                final(self).pos_v(),
                final(self).events_v(),
            ),
    {
        match self.parse_checked(root) {
            Some(r) => r,
            None => Ok(()),
        }
    }

    /// Parses `item`s separated by commas up to `endsyntax`.
    pub fn separeted_by_comma(&mut self, item: SyntaxCozo, endsyntax: SyntaxCozo) -> (r: Result<
        (),
        String,
    >)
        requires
            old(self).wf(),
            sep_step(old(self).tokens_v(), old(self).pos_v(), item, endsyntax) is Some,
        ensures
            final(self).tokens_v() == old(self).tokens_v(),
            final(self).wf(),
            outcome(
                Some(r),
                sep_step(old(self).tokens_v(), old(self).pos_v(), item, endsyntax),
                old(self).events_v(),
                final(self).pos_v(),
                final(self).events_v(),
            ),
    {
        match self.sep_exec(item, endsyntax) {
            Some(r) => r,
            None => Ok(()),
        }
    }

    /// Parses `kind` between optional runs of spaces.
    pub fn delimited_ascii_spaces0(&mut self, kind: SyntaxCozo) -> (r: Result<(), String>)
        requires
            old(self).wf(),
            delimited_step(old(self).tokens_v(), old(self).pos_v(), kind) is Some,
        ensures
            final(self).tokens_v() == old(self).tokens_v(),
            final(self).wf(),
            outcome(
                Some(r),
                delimited_step(old(self).tokens_v(), old(self).pos_v(), kind),
                old(self).events_v(),
                final(self).pos_v(),
                final(self).events_v(),
            ),
    {
        let ghost ts = self.tokens_v();
        let ghost ev0 = self.events_v();
        let ghost p0 = self.pos_v();
        let ghost e1: Seq<EventV> = if spaces_at(ts, p0) {
            seq![EventV::StaticToken(SyntaxCozo::Space)]
        } else {
            seq![]
        };
        self.skip_ascii_spaces();
        let ghost p1 = self.pos_v();
        assert(self.events_v() =~= ev0 + e1);
        let r = self.parse(kind);
        let ghost st = parse_step(ts, p1, kind).unwrap();
        match r {
            Err(e) => {
                assert(self.events_v() =~= ev0 + (e1 + st.events));
                Err(e)
            },
            Ok(_) => {
                let ghost e2: Seq<EventV> = if spaces_at(ts, st.pos) {
                    seq![EventV::StaticToken(SyntaxCozo::Space)]
                } else {
                    seq![]
                };
                self.skip_ascii_spaces();
                assert(self.events_v() =~= ev0 + (e1 + st.events + e2));
                Ok(())
            },
        }
    }
}

} // verus!
