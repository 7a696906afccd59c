//! Parsing assembly source for the stack dialect: lines hold an optional
//! label (`name:`), then an optional statement — a section directive
//! (`.text`, `.data`) or an instruction with at most one operand.  A `;`
//! starts a comment.  Errors carry the 1-based line and the byte column of
//! the offending token.

use vstd::prelude::*;

use crate::errors::{ParseError, ParseErrorKind};
use crate::model::{bytes_eq, copy_bytes, SectionKind};

verus! {

/// An instruction that takes no operand.
#[derive(Clone, Copy, Debug, PartialEq, Eq, Structural)]
pub enum PlainOp {
    Halt,
    Nop,
    Add,
}

/// An instruction that takes one operand.
#[derive(Clone, Copy, Debug, PartialEq, Eq, Structural)]
pub enum ArgOp {
    Push,
    Jmp,
}

/// An instruction operand: a numeric literal or a symbol name.
#[derive(Debug, PartialEq, Eq)]
pub enum Operand {
    Num(u64),
    Sym(Vec<u8>),
}

/// One parsed statement.
#[derive(Debug, PartialEq, Eq)]
pub enum Statement {
    Label(Vec<u8>),
    SetSection(SectionKind),
    Plain(PlainOp),
    WithArg(ArgOp, Operand),
}

/// Mathematical view of an [`Operand`].
#[verifier::ext_equal]
pub ghost enum OperandV {
    Num(u64),
    Sym(Seq<u8>),
}

/// Mathematical view of a [`Statement`].
#[verifier::ext_equal]
pub ghost enum StatementV {
    Label(Seq<u8>),
    SetSection(SectionKind),
    Plain(PlainOp),
    WithArg(ArgOp, OperandV),
}

impl View for Operand {
    type V = OperandV;

    open spec fn view(&self) -> OperandV {
        match self {
            Operand::Num(v) => OperandV::Num(*v),
            Operand::Sym(s) => OperandV::Sym(s@),
        }
    }
}

impl View for Statement {
    type V = StatementV;

    open spec fn view(&self) -> StatementV {
        match self {
            Statement::Label(s) => StatementV::Label(s@),
            Statement::SetSection(k) => StatementV::SetSection(*k),
            Statement::Plain(op) => StatementV::Plain(*op),
            Statement::WithArg(op, a) => StatementV::WithArg(*op, a@),
        }
    }
}

/// Whitespace inside a line.
pub open spec fn is_space(c: u8) -> bool {
    c == 32 || c == 9 || c == 13
}

/// An ASCII decimal digit.
pub open spec fn is_digit(c: u8) -> bool {
    48 <= c <= 57
}

/// A character allowed in a label or symbol name.
pub open spec fn is_name_char(c: u8) -> bool {
    is_digit(c) || (65 <= c <= 90) || (97 <= c <= 122) || c == 95
}

/// Every character of `s` may appear in a name.
pub open spec fn all_name_chars(s: Seq<u8>) -> bool {
    forall|i: int| 0 <= i < s.len() ==> is_name_char(#[trigger] s[i])
}

/// Every character of `s` is a digit.
pub open spec fn all_digits(s: Seq<u8>) -> bool {
    forall|i: int| 0 <= i < s.len() ==> is_digit(#[trigger] s[i])
}

/// Value of a digit string.
pub open spec fn digits_val(s: Seq<u8>) -> nat
    decreases s.len(),
{
    if s.len() == 0 {
        0
    } else {
        (digits_val(s.drop_last()) * 10 + (s.last() - 48)) as nat
    }
}

/// A longer digit prefix never has a smaller value.
proof fn lemma_digits_prefix(s: Seq<u8>, i: int)
    requires
        0 <= i <= s.len(),
        all_digits(s),
    ensures
        digits_val(s.subrange(0, i)) <= digits_val(s),
    decreases s.len() - i,
{
    if i < s.len() {
        lemma_digits_prefix(s, i + 1);
        assert(s.subrange(0, i + 1).drop_last() =~= s.subrange(0, i));
        assert(digits_val(s.subrange(0, i + 1)) == digits_val(s.subrange(0, i)) * 10 + (
        s.subrange(0, i + 1).last() - 48));
    } else {
        assert(s.subrange(0, i) =~= s);
    }
}

/// One token: its byte column and its text.
#[verifier::ext_equal]
pub ghost struct TokenV {
    pub col: nat,
    pub text: Seq<u8>,
}

/// The tokens of a line from position `i`, with `cur` the start of the
/// token currently being read, if any.
pub open spec fn toks_from(line: Seq<u8>, i: int, cur: Option<int>) -> Seq<TokenV>
    decreases line.len() - i,
{
    if i < 0 || i >= line.len() {
        match cur {
            Option::Some(s) => seq![
                TokenV { col: s as nat, text: line.subrange(s, line.len() as int) },
            ],
            Option::None => Seq::empty(),
        }
    } else if line[i] == 59 {
        match cur {
            Option::Some(s) => seq![TokenV { col: s as nat, text: line.subrange(s, i) }],
            Option::None => Seq::empty(),
        }
    } else if is_space(line[i]) {
        match cur {
            Option::Some(s) => seq![TokenV { col: s as nat, text: line.subrange(s, i) }]
                + toks_from(line, i + 1, Option::None),
            Option::None => toks_from(line, i + 1, Option::None),
        }
    } else {
        match cur {
            Option::Some(s) => toks_from(line, i + 1, Option::Some(s)),
            Option::None => toks_from(line, i + 1, Option::Some(i)),
        }
    }
}

/// The tokens of one line, comments stripped.
pub open spec fn line_tokens(line: Seq<u8>) -> Seq<TokenV> {
    toks_from(line, 0, Option::None)
}

/// Keyword byte strings.
pub open spec fn kw_text_dir() -> Seq<u8> {
    seq![46u8, 116u8, 101u8, 120u8, 116u8]
}

pub open spec fn kw_data_dir() -> Seq<u8> {
    seq![46u8, 100u8, 97u8, 116u8, 97u8]
}

pub open spec fn kw_halt() -> Seq<u8> {
    seq![104u8, 97u8, 108u8, 116u8]
}

pub open spec fn kw_nop() -> Seq<u8> {
    seq![110u8, 111u8, 112u8]
}

pub open spec fn kw_add() -> Seq<u8> {
    seq![97u8, 100u8, 100u8]
}

pub open spec fn kw_push() -> Seq<u8> {
    seq![112u8, 117u8, 115u8, 104u8]
}

pub open spec fn kw_jmp() -> Seq<u8> {
    seq![106u8, 109u8, 112u8]
}

/// Classify one operand token.
pub open spec fn operand_of(s: Seq<u8>) -> Result<OperandV, ParseErrorKind> {
    if s.len() == 0 {
        Result::Err(ParseErrorKind::MalformedOperand)
    } else if is_digit(s[0]) {
        if all_digits(s) && digits_val(s) <= u64::MAX {
            Result::Ok(OperandV::Num(digits_val(s) as u64))
        } else {
            Result::Err(ParseErrorKind::MalformedOperand)
        }
    } else if all_name_chars(s) {
        Result::Ok(OperandV::Sym(s))
    } else {
        Result::Err(ParseErrorKind::MalformedOperand)
    }
}

/// Classify the statement part of a line (after any label).
pub open spec fn classify_rest(ts: Seq<TokenV>) -> Result<Seq<StatementV>, (nat, ParseErrorKind)> {
    if ts.len() == 0 {
        Result::Ok(Seq::empty())
    } else {
        let t0 = ts[0];
        if t0.text == kw_text_dir() || t0.text == kw_data_dir() {
            if ts.len() > 1 {
                Result::Err((ts[1].col, ParseErrorKind::ExtraToken))
            } else {
                Result::Ok(
                    seq![
                        StatementV::SetSection(
                            if t0.text == kw_text_dir() {
                                SectionKind::Code
                            } else {
                                SectionKind::Data
                            },
                        ),
                    ],
                )
            }
        } else if t0.text.len() > 0 && t0.text[0] == 46 {
            Result::Err((t0.col, ParseErrorKind::UnknownDirective))
        } else if t0.text == kw_halt() || t0.text == kw_nop() || t0.text == kw_add() {
            if ts.len() > 1 {
                Result::Err((ts[1].col, ParseErrorKind::ExtraToken))
            } else {
                Result::Ok(
                    seq![
                        StatementV::Plain(
                            if t0.text == kw_halt() {
                                PlainOp::Halt
                            } else if t0.text == kw_nop() {
                                PlainOp::Nop
                            } else {
                                PlainOp::Add
                            },
                        ),
                    ],
                )
            }
        } else if t0.text == kw_push() || t0.text == kw_jmp() {
            if ts.len() < 2 {
                Result::Err((t0.col, ParseErrorKind::MissingOperand))
            } else if ts.len() > 2 {
                Result::Err((ts[2].col, ParseErrorKind::ExtraToken))
            } else {
                match operand_of(ts[1].text) {
                    Result::Ok(a) => Result::Ok(
                        seq![
                            StatementV::WithArg(
                                if t0.text == kw_push() {
                                    ArgOp::Push
                                } else {
                                    ArgOp::Jmp
                                },
                                a,
                            ),
                        ],
                    ),
                    Result::Err(k) => Result::Err((ts[1].col, k)),
                }
            }
        } else {
            Result::Err((t0.col, ParseErrorKind::UnknownMnemonic))
        }
    }
}

/// Classify a whole line's tokens: an optional label, then a statement.
pub open spec fn classify_line(ts: Seq<TokenV>) -> Result<Seq<StatementV>, (nat, ParseErrorKind)> {
    if ts.len() == 0 {
        Result::Ok(Seq::empty())
    } else if ts[0].text.len() > 0 && ts[0].text.last() == 58 {
        let name = ts[0].text.drop_last();
        if name.len() == 0 || !all_name_chars(name) {
            Result::Err((ts[0].col, ParseErrorKind::MalformedLabel))
        } else {
            match classify_rest(ts.subrange(1, ts.len() as int)) {
                Result::Ok(stmts) => Result::Ok(seq![StatementV::Label(name)] + stmts),
                Result::Err(e) => Result::Err(e),
            }
        }
    } else {
        classify_rest(ts)
    }
}

/// The source split into lines at each newline byte.
pub open spec fn split_from(src: Seq<u8>, i: int, cur: Seq<u8>) -> Seq<Seq<u8>>
    decreases src.len() - i,
{
    if i < 0 || i >= src.len() {
        seq![cur]
    } else if src[i] == 10 {
        seq![cur] + split_from(src, i + 1, Seq::empty())
    } else {
        split_from(src, i + 1, cur.push(src[i]))
    }
}

/// Statements of a list of lines, or the first error with its line number.
pub open spec fn parse_lines(ls: Seq<Seq<u8>>, lineno: nat) -> Result<Seq<StatementV>, ParseError>
    decreases ls.len(),
{
    if ls.len() == 0 {
        Result::Ok(Seq::empty())
    } else {
        match classify_line(line_tokens(ls[0])) {
            Result::Ok(stmts) => match parse_lines(
                ls.subrange(1, ls.len() as int),
                (lineno + 1) as nat,
            ) {
                Result::Ok(rest) => Result::Ok(stmts + rest),
                Result::Err(e) => Result::Err(e),
            },
            Result::Err((col, kind)) => if lineno <= usize::MAX && col <= usize::MAX {
                Result::Err(ParseError { line: lineno as usize, col: col as usize, kind })
            } else {
                Result::Err(ParseError { line: 0, col: 0, kind })
            },
        }
    }
}

/// The statements of a whole source text, or the first parse error.
pub open spec fn parse_spec(src: Seq<u8>) -> Result<Seq<StatementV>, ParseError> {
    parse_lines(split_from(src, 0, Seq::empty()), 1)
}

} // verus!

verus! {

/// One token as read: its byte column and its text.
pub struct Token {
    pub col: usize,
    pub text: Vec<u8>,
}

impl View for Token {
    type V = TokenV;

    open spec fn view(&self) -> TokenV {
        TokenV { col: self.col as nat, text: self.text@ }
    }
}

/// Copy of `line[from..to]`.
fn copy_range(line: &Vec<u8>, from: usize, to: usize) -> (r: Vec<u8>)
    requires
        from <= to <= line@.len(),
    ensures
        r@ == line@.subrange(from as int, to as int),
{
    let mut out: Vec<u8> = Vec::new();
    let mut i: usize = from;
    while i < to
        invariant
            from <= i <= to <= line@.len(),
            out@ == line@.subrange(from as int, i as int),
        decreases to - i,
    {
        out.push(line[i]);
        proof {
            assert(out@ =~= line@.subrange(from as int, i + 1));
        }
        i += 1;
    }
    out
}

/// Tokens of one line, comments stripped.
fn tokenize(line: &Vec<u8>) -> (r: Vec<Token>)
    ensures
        r@.map_values(|t: Token| t@) == line_tokens(line@),
{
    let mut acc: Vec<Token> = Vec::new();
    let mut cur: Option<usize> = Option::None;
    let mut i: usize = 0;
    proof {
        assert(line_tokens(line@) =~= Seq::<Token>::empty().map_values(|t: Token| t@)
            + toks_from(line@, 0, Option::None));
    }
    while i < line.len()
        invariant
            0 <= i <= line@.len(),
            match cur {
                Option::Some(s) => s < i,
                Option::None => true,
            },
            line_tokens(line@) == acc@.map_values(|t: Token| t@) + toks_from(
                line@,
                i as int,
                match cur {
                    Option::Some(s) => Option::Some(s as int),
                    Option::None => Option::<int>::None,
                },
            ),
        decreases line@.len() - i,
    {
        let c = line[i];
        if c == 59 {
            match cur {
                Option::Some(s) => {
                    acc.push(Token { col: s, text: copy_range(line, s, i) });
                    proof {
                        assert(acc@.map_values(|t: Token| t@) =~= acc@.subrange(
                            0,
                            acc@.len() - 1,
                        ).map_values(|t: Token| t@) + seq![
                            TokenV { col: s as nat, text: line@.subrange(s as int, i as int) },
                        ]);
                        assert(line_tokens(line@) =~= acc@.map_values(|t: Token| t@));
                    }
                },
                Option::None => {},
            }
            return acc;
        }
        if c == 32 || c == 9 || c == 13 {
            match cur {
                Option::Some(s) => {
                    acc.push(Token { col: s, text: copy_range(line, s, i) });
                    proof {
                        assert(acc@.map_values(|t: Token| t@) =~= acc@.subrange(
                            0,
                            acc@.len() - 1,
                        ).map_values(|t: Token| t@) + seq![
                            TokenV { col: s as nat, text: line@.subrange(s as int, i as int) },
                        ]);
                        assert(line_tokens(line@) =~= acc@.map_values(|t: Token| t@)
                            + toks_from(line@, i + 1, Option::<int>::None));
                    }
                },
                Option::None => {},
            }
            cur = Option::None;
        } else {
            if cur.is_none() {
                cur = Option::Some(i);
            }
        }
        i += 1;
    }
    match cur {
        Option::Some(s) => {
            acc.push(Token { col: s, text: copy_range(line, s, line.len()) });
            proof {
                assert(acc@.map_values(|t: Token| t@) =~= acc@.subrange(0, acc@.len() - 1)
                    .map_values(|t: Token| t@) + seq![
                    TokenV {
                        col: s as nat,
                        text: line@.subrange(s as int, line@.len() as int),
                    },
                ]);
                assert(line_tokens(line@) =~= acc@.map_values(|t: Token| t@));
            }
        },
        Option::None => {
            proof {
                assert(line_tokens(line@) =~= acc@.map_values(|t: Token| t@));
            }
        },
    }
    acc
}

/// Whether every byte of `s` may appear in a name.
fn check_name_chars(s: &Vec<u8>) -> (r: bool)
    ensures
        r == all_name_chars(s@),
{
    let mut i: usize = 0;
    while i < s.len()
        invariant
            0 <= i <= s@.len(),
            forall|k: int| 0 <= k < i ==> is_name_char(#[trigger] s@[k]),
        decreases s@.len() - i,
    {
        let c = s[i];
        if !((48 <= c && c <= 57) || (65 <= c && c <= 90) || (97 <= c && c <= 122) || c == 95) {
            return false;
        }
        i += 1;
    }
    true
}

/// Classify one operand token.
fn parse_operand(s: &Vec<u8>) -> (r: Result<Operand, ParseErrorKind>)
    ensures
        match r {
            Result::Ok(a) => operand_of(s@) == Result::<OperandV, ParseErrorKind>::Ok(a@),
            Result::Err(k) => operand_of(s@) == Result::<OperandV, ParseErrorKind>::Err(k),
        },
{
    if s.len() == 0 {
        return Result::Err(ParseErrorKind::MalformedOperand);
    }
    let c0 = s[0];
    if 48 <= c0 && c0 <= 57 {
        let mut acc: u128 = 0;
        let mut i: usize = 0;
        while i < s.len()
            invariant
                0 <= i <= s@.len(),
                s@.len() > 0,
                is_digit(s@[0]),
                forall|k: int| 0 <= k < i ==> is_digit(#[trigger] s@[k]),
                acc == digits_val(s@.subrange(0, i as int)),
                acc <= u64::MAX,
            decreases s@.len() - i,
        {
            let c = s[i];
            if !(48 <= c && c <= 57) {
                return Result::Err(ParseErrorKind::MalformedOperand);
            }
            let next: u128 = acc * 10 + ((c - 48) as u128);
            proof {
                assert(s@.subrange(0, i + 1).drop_last() =~= s@.subrange(0, i as int));
                assert(next == digits_val(s@.subrange(0, i + 1)));
            }
            if next > u64::MAX as u128 {
                proof {
                    let full = s@;
                    if all_digits(full) {
                        lemma_digits_prefix(full, i + 1);
                    }
                }
                return Result::Err(ParseErrorKind::MalformedOperand);
            }
            acc = next;
            i += 1;
        }
        proof {
            assert(s@.subrange(0, s@.len() as int) =~= s@);
        }
        Result::Ok(Operand::Num(acc as u64))
    } else {
        if check_name_chars(s) {
            Result::Ok(Operand::Sym(copy_bytes(s)))
        } else {
            Result::Err(ParseErrorKind::MalformedOperand)
        }
    }
}

} // verus!

verus! {

/// Append the classified statement part of a line (after any label).
fn classify_rest_exec(ts: &Vec<Token>, from: usize, out: &mut Vec<Statement>) -> (r: Result<
    (),
    (usize, ParseErrorKind),
>)
    requires
        from <= ts@.len(),
    ensures
        match r {
            Result::Ok(()) => classify_rest(ts@.map_values(|t: Token| t@).subrange(
                from as int,
                ts@.len() as int,
            )) == Result::<Seq<StatementV>, (nat, ParseErrorKind)>::Ok(
                final(out)@.map_values(|s: Statement| s@).skip(old(out)@.len() as int),
            ) && final(out)@.len() >= old(out)@.len() && (forall|w: int|
                0 <= w < old(out)@.len() ==> final(out)@[w] == old(out)@[w]),
            Result::Err((col, k)) => classify_rest(ts@.map_values(|t: Token| t@).subrange(
                from as int,
                ts@.len() as int,
            )) == Result::<Seq<StatementV>, (nat, ParseErrorKind)>::Err(((col as nat), k))
                && final(out)@ == old(out)@,
        },
{
    let ghost sub = ts@.map_values(|t: Token| t@).subrange(from as int, ts@.len() as int);
    let ghost base = out@.len() as int;
    let n = ts.len() - from;
    if n == 0 {
        proof {
            assert(out@.map_values(|s: Statement| s@).skip(base) =~= Seq::<StatementV>::empty());
        }
        return Result::Ok(());
    }
    proof {
        assert(sub[0] == ts@[from as int]@);
        if n > 1 {
            assert(sub[1] == ts@[from as int + 1]@);
        }
        if n > 2 {
            assert(sub[2] == ts@[from as int + 2]@);
        }
    }
    let kw_text: Vec<u8> = vec![46, 116, 101, 120, 116];
    let kw_data: Vec<u8> = vec![46, 100, 97, 116, 97];
    let kw_h: Vec<u8> = vec![104, 97, 108, 116];
    let kw_n: Vec<u8> = vec![110, 111, 112];
    let kw_a: Vec<u8> = vec![97, 100, 100];
    let kw_p: Vec<u8> = vec![112, 117, 115, 104];
    let kw_j: Vec<u8> = vec![106, 109, 112];
    proof {
        assert(kw_text@ =~= kw_text_dir());
        assert(kw_data@ =~= kw_data_dir());
        assert(kw_h@ =~= kw_halt());
        assert(kw_n@ =~= kw_nop());
        assert(kw_a@ =~= kw_add());
        assert(kw_p@ =~= kw_push());
        assert(kw_j@ =~= kw_jmp());
    }
    let t0 = &ts[from];
    let is_text = bytes_eq(&t0.text, &kw_text);
    let is_data = bytes_eq(&t0.text, &kw_data);
    if is_text || is_data {
        if n > 1 {
            return Result::Err((ts[from + 1].col, ParseErrorKind::ExtraToken));
        }
        out.push(
            Statement::SetSection(
                if is_text {
                    SectionKind::Code
                } else {
                    SectionKind::Data
                },
            ),
        );
        proof {
            assert(out@.map_values(|s: Statement| s@).skip(base) =~= seq![
                StatementV::SetSection(
                    if sub[0].text == kw_text_dir() {
                        SectionKind::Code
                    } else {
                        SectionKind::Data
                    },
                ),
            ]);
        }
        return Result::Ok(());
    }
    if t0.text.len() > 0 && t0.text[0] == 46 {
        return Result::Err((t0.col, ParseErrorKind::UnknownDirective));
    }
    let is_h = bytes_eq(&t0.text, &kw_h);
    let is_n = bytes_eq(&t0.text, &kw_n);
    let is_a = bytes_eq(&t0.text, &kw_a);
    if is_h || is_n || is_a {
        if n > 1 {
            return Result::Err((ts[from + 1].col, ParseErrorKind::ExtraToken));
        }
        out.push(
            Statement::Plain(
                if is_h {
                    PlainOp::Halt
                } else if is_n {
                    PlainOp::Nop
                } else {
                    PlainOp::Add
                },
            ),
        );
        proof {
            assert(out@.map_values(|s: Statement| s@).skip(base) =~= seq![
                StatementV::Plain(
                    if sub[0].text == kw_halt() {
                        PlainOp::Halt
                    } else if sub[0].text == kw_nop() {
                        PlainOp::Nop
                    } else {
                        PlainOp::Add
                    },
                ),
            ]);
        }
        return Result::Ok(());
    }
    let is_p = bytes_eq(&t0.text, &kw_p);
    let is_j = bytes_eq(&t0.text, &kw_j);
    if is_p || is_j {
        if n < 2 {
            return Result::Err((t0.col, ParseErrorKind::MissingOperand));
        }
        if n > 2 {
            return Result::Err((ts[from + 2].col, ParseErrorKind::ExtraToken));
        }
        match parse_operand(&ts[from + 1].text) {
            Result::Ok(a) => {
                let ghost av = a@;
                out.push(
                    Statement::WithArg(
                        if is_p {
                            ArgOp::Push
                        } else {
                            ArgOp::Jmp
                        },
                        a,
                    ),
                );
                proof {
                    assert(out@.map_values(|s: Statement| s@).skip(base) =~= seq![
                        StatementV::WithArg(
                            if sub[0].text == kw_push() {
                                ArgOp::Push
                            } else {
                                ArgOp::Jmp
                            },
                            av,
                        ),
                    ]);
                }
                return Result::Ok(());
            },
            Result::Err(k) => {
                return Result::Err((ts[from + 1].col, k));
            },
        }
    }
    Result::Err((t0.col, ParseErrorKind::UnknownMnemonic))
}

/// Classify one line's tokens.
fn classify_line_exec(ts: &Vec<Token>) -> (r: Result<Vec<Statement>, (usize, ParseErrorKind)>)
    ensures
        match r {
            Result::Ok(v) => classify_line(ts@.map_values(|t: Token| t@)) == Result::<
                Seq<StatementV>,
                (nat, ParseErrorKind),
            >::Ok(v@.map_values(|s: Statement| s@)),
            Result::Err((col, k)) => classify_line(ts@.map_values(|t: Token| t@)) == Result::<
                Seq<StatementV>,
                (nat, ParseErrorKind),
            >::Err(((col as nat), k)),
        },
{
    let ghost tv = ts@.map_values(|t: Token| t@);
    let mut v: Vec<Statement> = Vec::new();
    if ts.len() == 0 {
        proof {
            assert(v@.map_values(|s: Statement| s@) =~= Seq::<StatementV>::empty());
        }
        return Result::Ok(v);
    }
    proof {
        assert(tv[0] == ts@[0]@);
    }
    let t0len = ts[0].text.len();
    if t0len > 0 && ts[0].text[t0len - 1] == 58 {
        let name = copy_range(&ts[0].text, 0, t0len - 1);
        proof {
            assert(name@ =~= tv[0].text.drop_last());
        }
        if name.len() == 0 || !check_name_chars(&name) {
            return Result::Err((ts[0].col, ParseErrorKind::MalformedLabel));
        }
        let ghost lbl = StatementV::Label(tv[0].text.drop_last());
        v.push(Statement::Label(name));
        match classify_rest_exec(ts, 1, &mut v) {
            Result::Ok(()) => {
                proof {
                    assert(v@[0]@ == lbl);
                    assert(v@.map_values(|s: Statement| s@) =~= seq![lbl] + v@.map_values(
                        |s: Statement| s@,
                    ).skip(1));
                }
                return Result::Ok(v);
            },
            Result::Err(e) => {
                return Result::Err(e);
            },
        }
    }
    match classify_rest_exec(ts, 0, &mut v) {
        Result::Ok(()) => {
            proof {
                assert(v@.map_values(|s: Statement| s@) =~= v@.map_values(
                    |s: Statement| s@,
                ).skip(0));
            }
            Result::Ok(v)
        },
        Result::Err(e) => Result::Err(e),
    }
}

} // verus!

verus! {

/// Parse a whole source text into statements, or the first error with its
/// line and column.
pub fn parse_source(src: &Vec<u8>) -> (r: Result<Vec<Statement>, ParseError>)
    ensures
        match r {
            Result::Ok(v) => parse_spec(src@) == Result::<Seq<StatementV>, ParseError>::Ok(
                v@.map_values(|s: Statement| s@),
            ),
            Result::Err(e) => parse_spec(src@) == Result::<Seq<StatementV>, ParseError>::Err(e),
        },
{
    let mut lines: Vec<Vec<u8>> = Vec::new();
    let mut cur: Vec<u8> = Vec::new();
    let mut i: usize = 0;
    proof {
        assert(split_from(src@, 0, Seq::empty()) =~= Seq::<Vec<u8>>::empty().map_values(
            |l: Vec<u8>| l@,
        ) + split_from(src@, 0, cur@));
    }
    while i < src.len()
        invariant
            0 <= i <= src@.len(),
            split_from(src@, 0, Seq::empty()) == lines@.map_values(|l: Vec<u8>| l@)
                + split_from(src@, i as int, cur@),
        decreases src@.len() - i,
    {
        let c = src[i];
        if c == 10 {
            lines.push(cur);
            cur = Vec::new();
            proof {
                assert(lines@.map_values(|l: Vec<u8>| l@) =~= lines@.subrange(
                    0,
                    lines@.len() - 1,
                ).map_values(|l: Vec<u8>| l@) + seq![lines@[lines@.len() - 1]@]);
                assert(split_from(src@, 0, Seq::empty()) =~= lines@.map_values(
                    |l: Vec<u8>| l@,
                ) + split_from(src@, i + 1, cur@));
            }
        } else {
            cur.push(c);
        }
        i += 1;
    }
    lines.push(cur);
    proof {
        assert(lines@.map_values(|l: Vec<u8>| l@) =~= lines@.subrange(0, lines@.len() - 1)
            .map_values(|l: Vec<u8>| l@) + seq![lines@[lines@.len() - 1]@]);
        assert(split_from(src@, 0, Seq::empty()) =~= lines@.map_values(|l: Vec<u8>| l@));
    }
    let ghost lsv = lines@.map_values(|l: Vec<u8>| l@);
    let mut stmts: Vec<Statement> = Vec::new();
    let mut k: usize = 0;
    proof {
        assert(lsv.subrange(0, lsv.len() as int) =~= lsv);
        assert(parse_lines(lsv, 1) == (match parse_lines(lsv.subrange(0, lsv.len() as int),
            1) {
            Result::Ok(rest) => Result::<Seq<StatementV>, ParseError>::Ok(
                Seq::<Statement>::empty().map_values(|s: Statement| s@) + rest,
            ),
            Result::Err(e) => Result::<Seq<StatementV>, ParseError>::Err(e),
        }));
    }
    while k < lines.len()
        invariant
            0 <= k <= lines@.len(),
            lsv == lines@.map_values(|l: Vec<u8>| l@),
            lsv == split_from(src@, 0, Seq::empty()),
            lsv.len() == lines@.len(),
            parse_lines(lsv, 1) == (match parse_lines(lsv.subrange(k as int, lsv.len() as int),
                (k + 1) as nat) {
                Result::Ok(rest) => Result::<Seq<StatementV>, ParseError>::Ok(
                    stmts@.map_values(|s: Statement| s@) + rest,
                ),
                Result::Err(e) => Result::<Seq<StatementV>, ParseError>::Err(e),
            }),
        decreases lines@.len() - k,
    {
        let ghost rem = lsv.subrange(k as int, lsv.len() as int);
        proof {
            assert(rem[0] == lsv[k as int]);
            assert(rem[0] == lines@[k as int]@);
            assert(rem.subrange(1, rem.len() as int) =~= lsv.subrange(k + 1, lsv.len() as int));
        }
        let toks = tokenize(&lines[k]);
        match classify_line_exec(&toks) {
            Result::Ok(v) => {
                let ghost vv = v@.map_values(|s: Statement| s@);
                let ghost pre = stmts@;
                let mut v = v;
                let mut q: usize = 0;
                while v.len() > 0
                    invariant
                        0 <= q <= vv.len(),
                        vv.len() <= usize::MAX,
                        v@.len() == vv.len() - q,
                        v@.map_values(|s: Statement| s@) == vv.subrange(
                            q as int,
                            vv.len() as int,
                        ),
                        stmts@.map_values(|s: Statement| s@) == pre.map_values(
                            |s: Statement| s@,
                        ) + vv.subrange(0, q as int),
                    decreases v@.len(),
                {
                    let ghost prev = v@;
                    let s = v.remove(0);
                    proof {
                        assert(prev.map_values(|s2: Statement| s2@)[0] == s@);
                        assert(vv.subrange(q as int, vv.len() as int)[0] == vv[q as int]);
                    }
                    let ghost prestmts = stmts@;
                    stmts.push(s);
                    q += 1;
                    proof {
                        assert(stmts@.subrange(0, stmts@.len() - 1) =~= prestmts);
                        assert(stmts@.map_values(|s2: Statement| s2@) =~= prestmts.map_values(
                            |s2: Statement| s2@,
                        ) + seq![vv[q - 1]]);
                        assert(vv.subrange(0, q as int) =~= vv.subrange(0, q - 1) + seq![vv[q
                            - 1]]);
                        assert forall|w: int| 0 <= w < v@.len() implies (#[trigger] v@[w])@
                            == vv[q + w] by {
                            assert(v@[w] == prev[w + 1]);
                            assert(prev.map_values(|s2: Statement| s2@)[w + 1] == prev[w + 1]@);
                            assert(vv.subrange(q - 1, vv.len() as int)[w + 1] == vv[q + w]);
                        }
                        assert(v@.map_values(|s2: Statement| s2@) =~= vv.subrange(
                            q as int,
                            vv.len() as int,
                        ));
                        assert(stmts@.map_values(|s2: Statement| s2@) =~= pre.map_values(
                            |s2: Statement| s2@,
                        ) + vv.subrange(0, q as int));
                    }
                }
                proof {
                    assert(vv.subrange(0, vv.len() as int) =~= vv);
                    assert(stmts@.map_values(|s2: Statement| s2@) =~= pre.map_values(
                        |s2: Statement| s2@,
                    ) + vv);
                    match parse_lines(lsv.subrange(k + 1, lsv.len() as int), (k + 2) as nat) {
                        Result::Ok(rest) => {
                            assert(pre.map_values(|s2: Statement| s2@) + (vv + rest)
                                =~= stmts@.map_values(|s2: Statement| s2@) + rest);
                        },
                        Result::Err(_) => {},
                    }
                }
            },
            Result::Err((col, kind)) => {
                proof {
                    assert(parse_lines(lsv, 1) == Result::<Seq<StatementV>, ParseError>::Err(
                        ParseError { line: (k + 1) as usize, col, kind },
                    ));
                }
                return Result::Err(ParseError { line: k + 1, col, kind });
            },
        }
        k += 1;
    }
    proof {
        assert(parse_lines(lsv.subrange(lsv.len() as int, lsv.len() as int), (k + 1) as nat)
            == Result::<Seq<StatementV>, ParseError>::Ok(Seq::<StatementV>::empty()));
        assert(stmts@.map_values(|s: Statement| s@) + Seq::<StatementV>::empty()
            =~= stmts@.map_values(|s: Statement| s@));
    }
    Result::Ok(stmts)
}

} // verus!
