use vstd::prelude::*;
use crate::addr::{spec_split_sep, spec_views_of, split_sep};
use crate::zone::token::{Token, TokenType, TokenView};

verus! {

/// A whitespace byte of a master file line.
pub open spec fn spec_is_zone_ws(b: u8) -> bool {
    b == 32 || (9 <= b <= 13)
}

/// The views of a list of tokens.
pub open spec fn spec_token_views(v: Seq<Token>) -> Seq<TokenView> {
    v.map_values(|t: Token| t@)
}

/// A flushed word, when one was being gathered.
pub open spec fn spec_flush(temp: Seq<u8>, line: u16) -> Seq<TokenView> {
    if temp.len() > 0 {
        seq![TokenView { token_type: TokenType::Text, lexeme: temp, line }]
    } else {
        seq![]
    }
}

/// The tokens of the rest of a line, `temp` holding the word begun so
/// far.  Whitespace and the special marks flush the word; a semicolon
/// starts a comment that swallows the rest of the line.
pub open spec fn spec_scan_rest(s: Seq<u8>, temp: Seq<u8>, line: u16) -> Seq<TokenView>
    decreases s.len(),
{
    if s.len() == 0 {
        spec_flush(temp, line)
    } else if s[0] == 59 {
        seq![]
    } else if spec_is_zone_ws(s[0]) {
        spec_flush(temp, line) + spec_scan_rest(s.drop_first(), seq![], line)
    } else if s[0] == 36 || s[0] == 64 || s[0] == 40 || s[0] == 41 {
        spec_flush(temp, line) + seq![
            TokenView {
                token_type: (
                if s[0] == 36 {
                    TokenType::DolorSign
                } else if s[0] == 64 {
                    TokenType::AtSign
                } else if s[0] == 40 {
                    TokenType::LeftParenthesis
                } else {
                    TokenType::RightParenthesis
                }),
                lexeme: seq![s[0]],
                line,
            },
        ] + spec_scan_rest(s.drop_first(), seq![], line)
    } else {
        spec_scan_rest(s.drop_first(), temp.push(s[0]), line)
    }
}

/// The tokens of one line: a marker when it opens with whitespace
/// (meaning: reuse the previous owner), then its words and marks.
pub open spec fn spec_scan_line(s: Seq<u8>, line: u16) -> Seq<TokenView> {
    if s.len() > 0 && spec_is_zone_ws(s[0]) {
        seq![TokenView { token_type: TokenType::WhiteSpace, lexeme: seq![], line }]
            + spec_scan_rest(s, seq![], line)
    } else {
        spec_scan_rest(s, seq![], line)
    }
}

/// The tokens of the lines from `i` on, each line numbered.
pub open spec fn spec_scan_from(lines: Seq<Seq<u8>>, i: int) -> Seq<TokenView>
    decreases lines.len() - i,
{
    if i < 0 || i >= lines.len() {
        seq![]
    } else {
        spec_scan_line(lines[i], (i % 0x10000) as u16) + spec_scan_from(lines, i + 1)
    }
}

/// The lines of a master file: split at newlines, a trailing carriage
/// return stripped from each.
pub open spec fn spec_zone_lines(buf: Seq<u8>) -> Seq<Seq<u8>> {
    spec_split_sep(buf, 10).map_values(
        |l: Seq<u8>|
            if l.len() > 0 && l.last() == 13 {
                l.drop_last()
            } else {
                l
            },
    )
}

/// Scans one line into tokens.
#[verifier::loop_isolation(false)]
#[verifier::rlimit(100)]
fn scan_line(line: &[u8], line_num: u16) -> (r: Vec<Token>)
    ensures
        spec_token_views(r@) == spec_scan_line(line@, line_num),
{
    let mut res: Vec<Token> = Vec::new();
    let mut temp: Vec<u8> = Vec::new();
    let mut i: usize = 0;

    if line.len() > 0 {
        let b0: u8 = line[0];
        if b0 == 32 || (9 <= b0 && b0 <= 13) {
            let empty: [u8; 0] = [];
            res.push(Token::new(&empty, TokenType::WhiteSpace, line_num));
            proof {
                assert(res@[0]@.lexeme =~= Seq::<u8>::empty());
                assert(spec_token_views(res@) =~= seq![
                    TokenView {
                        token_type: TokenType::WhiteSpace,
                        lexeme: seq![],
                        line: line_num,
                    },
                ]);
            }
        }
    }
    let ghost lead = spec_token_views(res@);

    proof {
        assert(line@.skip(0) =~= line@);
        assert(lead + spec_scan_rest(line@, Seq::<u8>::empty(), line_num) =~= spec_scan_line(
            line@,
            line_num,
        ));
    }

    while i < line.len()
        invariant
            0 <= i <= line@.len(),
            temp@.len() <= i,
            spec_scan_line(line@, line_num) == spec_token_views(res@) + spec_scan_rest(
                line@.skip(i as int),
                temp@,
                line_num,
            ),
        decreases line@.len() - i,
    {
        let b: u8 = line[i];
        proof {
            assert(line@.skip(i as int).drop_first() =~= line@.skip(i as int + 1));
            assert(line@.skip(i as int)[0] == line@[i as int]);
        }
        if b == 59 {
            return res;
        } else if b == 32 || (9 <= b && b <= 13) {
            proof {
                assert(spec_is_zone_ws(line@.skip(i as int)[0]));
                assert(line@.skip(i as int)[0] != 59);
                assert(spec_scan_rest(line@.skip(i as int), temp@, line_num) == spec_flush(
                    temp@,
                    line_num,
                ) + spec_scan_rest(line@.skip(i as int + 1), Seq::<u8>::empty(), line_num));
            }
            if temp.len() > 0 {
                let ghost r0 = spec_token_views(res@);
                let ghost t0 = temp@;
                res.push(Token::new(temp.as_slice(), TokenType::Text, line_num));
                temp = Vec::new();
                proof {
                    assert(temp@ =~= Seq::<u8>::empty());
                    assert(spec_token_views(res@) =~= r0 + spec_flush(t0, line_num));
                    assert((r0 + spec_flush(t0, line_num)) + spec_scan_rest(
                        line@.skip(i as int + 1),
                        Seq::<u8>::empty(),
                        line_num,
                    ) =~= r0 + (spec_flush(t0, line_num) + spec_scan_rest(
                        line@.skip(i as int + 1),
                        Seq::<u8>::empty(),
                        line_num,
                    )));
                }
            } else {
                proof {
                    assert(temp@ =~= Seq::<u8>::empty());
                    assert(spec_flush(temp@, line_num) =~= Seq::<TokenView>::empty());
                    assert(spec_flush(temp@, line_num) + spec_scan_rest(
                        line@.skip(i as int + 1),
                        Seq::<u8>::empty(),
                        line_num,
                    ) =~= spec_scan_rest(line@.skip(i as int + 1), Seq::<u8>::empty(), line_num));
                }
            }
            proof {
                assert(spec_scan_line(line@, line_num) == spec_token_views(res@) + spec_scan_rest(
                    line@.skip(i as int + 1),
                    temp@,
                    line_num,
                ));
            }
        } else if b == 36 || b == 64 || b == 40 || b == 41 {
            proof {
                assert(line@.skip(i as int)[0] != 59 && !spec_is_zone_ws(line@.skip(i as int)[0]));
                assert(spec_scan_rest(line@.skip(i as int), temp@, line_num) == (spec_flush(
                    temp@,
                    line_num,
                ) + seq![
                    TokenView {
                        token_type: (
                        if b == 36 {
                            TokenType::DolorSign
                        } else if b == 64 {
                            TokenType::AtSign
                        } else if b == 40 {
                            TokenType::LeftParenthesis
                        } else {
                            TokenType::RightParenthesis
                        }),
                        lexeme: seq![b],
                        line: line_num,
                    },
                ]) + spec_scan_rest(line@.skip(i as int + 1), Seq::<u8>::empty(), line_num));
            }
            let ghost r0 = spec_token_views(res@);
            let ghost t0 = temp@;
            if temp.len() > 0 {
                res.push(Token::new(temp.as_slice(), TokenType::Text, line_num));
                temp = Vec::new();
                proof {
                    assert(temp@ =~= Seq::<u8>::empty());
                }
            } else {
                proof {
                    assert(temp@ =~= Seq::<u8>::empty());
                }
            }
            let kind = if b == 36 {
                TokenType::DolorSign
            } else if b == 64 {
                TokenType::AtSign
            } else if b == 40 {
                TokenType::LeftParenthesis
            } else {
                TokenType::RightParenthesis
            };
            let mark: [u8; 1] = [b];
            res.push(Token::new(&mark, kind, line_num));
            proof {
                let special = TokenView { token_type: kind, lexeme: seq![b], line: line_num };
                assert(res@[res@.len() - 1]@.lexeme =~= seq![b]);
                assert(res@[res@.len() - 1]@ == special);
                assert(spec_token_views(res@) =~= r0 + spec_flush(t0, line_num) + seq![special]);
                assert(((r0 + spec_flush(t0, line_num)) + seq![special]) + spec_scan_rest(
                    line@.skip(i as int + 1),
                    Seq::<u8>::empty(),
                    line_num,
                ) =~= r0 + ((spec_flush(t0, line_num) + seq![special]) + spec_scan_rest(
                    line@.skip(i as int + 1),
                    Seq::<u8>::empty(),
                    line_num,
                )));
                assert(spec_scan_line(line@, line_num) == spec_token_views(res@)
                    + spec_scan_rest(line@.skip(i as int + 1), temp@, line_num));
            }
        } else {
            temp.push(b);
            proof {
                assert(spec_scan_line(line@, line_num) == spec_token_views(res@)
                    + spec_scan_rest(line@.skip(i as int + 1), temp@, line_num));
            }
        }
        i = i + 1;
    }

    if temp.len() > 0 {
        let ghost r0 = spec_token_views(res@);
        let ghost t0 = temp@;
        res.push(Token::new(temp.as_slice(), TokenType::Text, line_num));
        proof {
            assert(line@.skip(line@.len() as int) =~= Seq::<u8>::empty());
            assert(spec_token_views(res@) =~= r0 + spec_flush(t0, line_num));
        }
    } else {
        proof {
            assert(line@.skip(line@.len() as int) =~= Seq::<u8>::empty());
            assert(spec_token_views(res@) + spec_flush(temp@, line_num) =~= spec_token_views(
                res@,
            ));
        }
    }

    res
}

/// Tokenises a master file line by line.
pub struct Scanner {
    lines: Vec<Vec<u8>>,
}

impl Scanner {
    /// The file's lines.
    pub closed spec fn spec_lines(&self) -> Seq<Seq<u8>> {
        spec_views_of(self.lines@)
    }

    pub fn new(buf: Vec<u8>) -> (r: Result<Scanner, crate::zone::error::ParserError>)
        ensures
            r matches Ok(s) && s.spec_lines() == spec_zone_lines(buf@),
    {
        let raw = split_sep(buf.as_slice(), 10);
        let mut lines: Vec<Vec<u8>> = Vec::new();
        let mut i: usize = 0;
        let ghost target = spec_zone_lines(buf@);

        while i < raw.len()
            invariant
                0 <= i <= raw@.len(),
                target == spec_zone_lines(buf@),
                spec_views_of(raw@) == spec_split_sep(buf@, 10),
                lines@.len() == i,
                forall|k: int| 0 <= k < i ==> (#[trigger] spec_views_of(lines@)[k]) == target[k],
            decreases raw@.len() - i,
        {
            proof {
                assert(spec_views_of(raw@)[i as int] == raw@[i as int]@);
            }
            let mut line = raw[i].clone();
            proof {
                assert(line@ =~= raw@[i as int]@);
            }
            if line.len() > 0 && line[line.len() - 1] == 13 {
                line.pop();
                proof {
                    assert(line@ =~= raw@[i as int]@.drop_last());
                }
            }
            let ghost prev = lines@;
            lines.push(line);
            proof {
                assert(target.len() == spec_split_sep(buf@, 10).len());
                assert(target[i as int] == (if raw@[i as int]@.len() > 0 && raw@[i as int]@.last()
                    == 13 {
                    raw@[i as int]@.drop_last()
                } else {
                    raw@[i as int]@
                }));
                assert forall|k: int| 0 <= k < i + 1 implies (#[trigger] spec_views_of(lines@)[k])
                    == target[k] by {
                    if k < i {
                        assert(lines@[k] == prev[k]);
                        assert(spec_views_of(prev)[k] == target[k]);
                    } else {
                        assert(spec_views_of(lines@)[k] == line@);
                    }
                }
            }
            i = i + 1;
        }

        proof {
            assert(spec_views_of(lines@) =~= target);
        }
        Ok(Scanner { lines })
    }

    /// All the file's tokens, line by line.
    #[verifier::loop_isolation(false)]
    pub fn scan(&self) -> (r: Result<Vec<Token>, crate::zone::error::ParserError>)
        ensures
            r matches Ok(tokens) && spec_token_views(tokens@) == spec_scan_from(
                self.spec_lines(),
                0,
            ),
    {
        let mut res: Vec<Token> = Vec::new();
        let mut i: usize = 0;

        proof {
            assert(spec_token_views(res@) + spec_scan_from(self.spec_lines(), 0) =~= spec_scan_from(
                self.spec_lines(),
                0,
            ));
        }

        while i < self.lines.len()
            invariant
                0 <= i <= self.lines@.len(),
                spec_scan_from(self.spec_lines(), 0) == spec_token_views(res@) + spec_scan_from(
                    self.spec_lines(),
                    i as int,
                ),
            decreases self.lines@.len() - i,
        {
            proof {
                assert(self.spec_lines()[i as int] == self.lines@[i as int]@);
            }
            #[verifier::truncate]
            let line_num: u16 = (i % 0x10000) as u16;
            let mut toks = scan_line(self.lines[i].as_slice(), line_num);
            let ghost r0 = spec_token_views(res@);
            let ghost tv = spec_token_views(toks@);
            res.append(&mut toks);
            proof {
                assert(spec_token_views(res@) =~= r0 + tv);
                assert((r0 + tv) + spec_scan_from(self.spec_lines(), i as int + 1) =~= r0 + (tv
                    + spec_scan_from(self.spec_lines(), i as int + 1)));
            }
            i = i + 1;
        }

        Ok(res)
    }

    /// Replaces the scanned text.
    pub fn replace(&mut self, s: &[u8])
        ensures
            final(self).spec_lines() == spec_zone_lines(s@),
    {
        let mut buf: Vec<u8> = Vec::new();
        let mut i: usize = 0;
        while i < s.len()
            invariant
                0 <= i <= s@.len(),
                buf@ == s@.subrange(0, i as int),
            decreases s@.len() - i,
        {
            buf.push(s[i]);
            proof {
                assert(buf@ =~= s@.subrange(0, i as int + 1));
            }
            i = i + 1;
        }
        proof {
            assert(buf@ =~= s@);
        }
        match Scanner::new(buf) {
            Ok(scanner) => {
                self.lines = scanner.lines;
            },
            Err(_) => {
            },
        }
    }
}

} // verus!
