//! The tokenizer and bracket matcher.
//!
//! Every character of the source yields exactly one token (line breaks
//! excepted), so token indices correspond to character offsets within the
//! text less its line breaks.  Loop brackets are linked while scanning with
//! a last-in-first-out stack of pending loop-starts: a loop-close pops the
//! most recent pending loop-start and the two are resolved to point one
//! past each other.  A loop-close with nothing pending, and any loop-start
//! still pending at the end, stay unresolved; tokenization itself never
//! fails.

use vstd::prelude::*;

use crate::token::{token_of_char, Token, TokenType};
use vstd::string::StrSliceExecFns;

verus! {

/// The scanner's state after some prefix of the text: the tokens built so
/// far, the token indices of pending loop-starts (innermost last), and the
/// 1-based position of the next character.
pub struct ScanState {
    pub toks: Seq<Token>,
    pub opens: Seq<int>,
    pub line: int,
    pub col: int,
}

/// The scanner before any character.
pub open spec fn scan_init() -> ScanState {
    ScanState { toks: Seq::empty(), opens: Seq::empty(), line: 1, col: 1 }
}

/// Whether character `j` of the text yields a token: a line feed does not,
/// nor does a carriage return directly before a line feed.
pub open spec fn emits(cs: Seq<char>, j: int) -> bool {
    cs[j] != '\n' && !(cs[j] == '\r' && j + 1 < cs.len() && cs[j + 1] == '\n')
}

/// One token appended to the scanner state, with bracket linking.
pub open spec fn emit_token(st: ScanState, c: char) -> ScanState {
    let tt = token_of_char(c);
    let idx = st.toks.len() as int;
    if tt == TokenType::JumpForward(None::<usize>) {
        ScanState {
            toks: st.toks.push(
                Token {
                    line: st.line as usize,
                    column: st.col as usize,
                    token_type: TokenType::JumpForward(None),
                },
            ),
            opens: st.opens.push(idx),
            col: st.col + 1,
            ..st
        }
    } else if tt == TokenType::JumpBackward(None::<usize>) && st.opens.len() > 0 {
        let b = st.opens.last();
        ScanState {
            toks: st.toks.update(
                b,
                Token {
                    line: st.toks[b].line,
                    column: st.toks[b].column,
                    token_type: TokenType::JumpForward(Some((idx + 1) as usize)),
                },
            ).push(
                Token {
                    line: st.line as usize,
                    column: st.col as usize,
                    token_type: TokenType::JumpBackward(Some((b + 1) as usize)),
                },
            ),
            opens: st.opens.drop_last(),
            col: st.col + 1,
            ..st
        }
    } else {
        ScanState {
            toks: st.toks.push(
                Token { line: st.line as usize, column: st.col as usize, token_type: tt },
            ),
            col: st.col + 1,
            ..st
        }
    }
}

/// The scanner state advanced over character `j` of the text.
pub open spec fn consume(st: ScanState, cs: Seq<char>, j: int) -> ScanState {
    if cs[j] == '\n' {
        ScanState { line: st.line + 1, col: 1, ..st }
    } else if cs[j] == '\r' && j + 1 < cs.len() && cs[j + 1] == '\n' {
        st
    } else {
        emit_token(st, cs[j])
    }
}

/// The scanner state after the first `i` characters of the text.
pub open spec fn scan_upto(cs: Seq<char>, i: int) -> ScanState
    decreases i,
{
    if i <= 0 {
        scan_init()
    } else {
        consume(scan_upto(cs, i - 1), cs, i - 1)
    }
}

/// The token sequence of a source text: what the scanner has built once
/// the whole text is consumed.
pub open spec fn tokens_of(cs: Seq<char>) -> Seq<Token> {
    scan_upto(cs, cs.len() as int).toks
}

/// Tokenizes the source text and resolves its loop brackets.  Pure: the
/// result is a function of the text alone, and tokenization never fails;
/// unmatched brackets merely stay unresolved, to be reported when
/// execution reaches them.
pub fn parse(code: &str) -> (tokens: Vec<Token>)
    requires
        code@.len() < usize::MAX,
    ensures
        tokens@ == tokens_of(code@),
{
    
    let n = code.unicode_len();
    let mut tokens: Vec<Token> = Vec::new();
    let mut opens: Vec<usize> = Vec::new();
    let mut line: usize = 1;
    let mut col: usize = 1;
    let mut i: usize = 0;
    proof {
        assert(opens@.map_values(|x: usize| x as int) =~= Seq::<int>::empty());
    }
    while i < n
        invariant
            n == code@.len(),
            n < usize::MAX,
            i <= n,
            scan_upto(code@, i as int) == (ScanState {
                toks: tokens@,
                opens: opens@.map_values(|x: usize| x as int),
                line: line as int,
                col: col as int,
            }),
        decreases n - i,
    {
        let ghost st = scan_upto(code@, i as int);
        let c = code.get_char(i);
        if c == '\n' {
            proof {
                crate::parse::lemma_scan_upto_bounds(code@, i as int);
            }
            line = line + 1;
            col = 1;
        } else if c == '\r' && i + 1 < n && code.get_char(i + 1) == '\n' {
            // dropped: part of a CR-LF line break
        } else {
            proof {
                crate::parse::lemma_scan_upto_bounds(code@, i as int);
            }
            let tt = TokenType::from(c);
            let tok = Token { line, column: col, token_type: tt };
            match tt {
                TokenType::JumpForward(_) => {
                    opens.push(tokens.len());
                    tokens.push(tok);
                    proof {
                        assert(opens@.map_values(|x: usize| x as int) =~= st.opens.push(
                            st.toks.len() as int,
                        ));
                    }
                },
                TokenType::JumpBackward(_) => {
                    if opens.len() > 0 {
                        let b = opens[opens.len() - 1];
                        opens.pop();
                        proof {
                            assert(st.opens[st.opens.len() - 1] == b as int);
                            assert(0 <= st.opens[st.opens.len() - 1] < st.toks.len());
                            assert(opens@.map_values(|x: usize| x as int) =~= st.opens.drop_last());
                        }
                        let back = Token {
                            line: tokens[b].line,
                            column: tokens[b].column,
                            token_type: TokenType::JumpForward(Some(tokens.len() + 1)),
                        };
                        tokens[b] = back;
                        tokens.push(
                            Token {
                                line,
                                column: col,
                                token_type: TokenType::JumpBackward(Some(b + 1)),
                            },
                        );
                    } else {
                        tokens.push(tok);
                    }
                },
                _ => {
                    tokens.push(tok);
                },
            }
            col = col + 1;
        }
        proof {
            assert(scan_upto(code@, i + 1) == consume(st, code@, i as int));
        }
        i = i + 1;
    }
    proof {
        assert(tokens@ == tokens_of(code@));
    }
    tokens
}

/// Everything the scanner's counters stay within: positions and stack
/// entries are bounded by how much text has been read.
pub proof fn lemma_scan_upto_bounds(cs: Seq<char>, i: int)
    requires
        0 <= i <= cs.len(),
    ensures
        ({
            let st = scan_upto(cs, i);
            &&& st.toks.len() <= i
            &&& 1 <= st.line <= i + 1
            &&& 1 <= st.col <= i + 1
            &&& forall|j: int| 0 <= j < st.opens.len() ==> 0 <= #[trigger] st.opens[j] < st.toks.len()
        }),
    decreases i,
{
    if i > 0 {
        lemma_scan_upto_bounds(cs, i - 1);
    }
}

} // verus!
