use vstd::prelude::*;
use crate::addr::{parse_dec_u16, parse_dec_u32, parse_ipv4, parse_ipv6};
use crate::query_class::QueryClass;
use crate::query_type::QueryType;
use crate::record::{clone_bytes, Record, RecordData, RecordView};
use crate::packet::spec_records;
use crate::zone::error::{ParserError, ParserErrorKind};
use crate::zone::scanner::{spec_scan_from, spec_token_views, spec_zone_lines, Scanner};
use crate::zone::token::{Keyword, Token, TokenType, TokenView};

verus! {

/// One zone: its origin, its default TTL, and its records.  A valid
/// zone holds at least one SOA record.
#[derive(Debug)]
pub struct Zone {
    pub origin: Vec<u8>,
    pub ttl: Option<u32>,
    pub records: Vec<Record>,
}

/// Some record of the list is an SOA.
pub open spec fn spec_has_soa(rs: Seq<RecordView>) -> bool {
    exists|i: int| 0 <= i < rs.len() && (#[trigger] rs[i]).rtype == QueryType::SOA
}

/// Every record of the list is of the IN class.
pub open spec fn spec_all_in_class(rs: Seq<RecordView>) -> bool {
    forall|i: int| 0 <= i < rs.len() ==> (#[trigger] rs[i]).rclass == QueryClass::IN
}

/// Qualifies a name against the origin: an absolute name (with a
/// trailing dot) is kept with the dot stripped; a bare name has the
/// origin appended after a dot.
pub open spec fn spec_to_domain(s: Seq<u8>, origin: Seq<u8>) -> Seq<u8> {
    if s.len() > 0 && s.last() == 46 {
        s.drop_last()
    } else {
        s + seq![46u8] + origin
    }
}

/// Qualifies a name against the origin.
pub fn to_domain(s: Vec<u8>, origin: &Vec<u8>) -> (r: Vec<u8>)
    ensures
        r@ == spec_to_domain(s@, origin@),
{
    let mut s = s;
    if s.len() > 0 && s[s.len() - 1] == 46 {
        s.pop();
        return s;
    }
    s.push(46);
    let mut tail = clone_bytes(origin);
    s.append(&mut tail);
    s
}

/// Strips one trailing dot.
pub open spec fn spec_trim_end(s: Seq<u8>) -> Seq<u8> {
    if s.len() > 0 && s.last() == 46 {
        s.drop_last()
    } else {
        s
    }
}

/// Strips one trailing dot.
pub fn trim_end(s: Vec<u8>) -> (r: Vec<u8>)
    ensures
        r@ == spec_trim_end(s@),
{
    let mut s = s;
    if s.len() > 0 && s[s.len() - 1] == 46 {
        s.pop();
    }
    s
}

/// Applies one dollar directive to the zone being built: `$ORIGIN`
/// sets the origin (trailing dot stripped), `$TTL` the default TTL;
/// the other keywords are not served.
pub fn parse_keywords(keyword: &Token, value: Token, res: &mut Zone) -> (r: Result<
    (),
    ParserError,
>)
    ensures
        ({
            match Keyword::spec_from(keyword@.lexeme) {
                Some(Keyword::Origin) => {
                    &&& r matches Ok(u) && u == ()
                    &&& final(res).origin@ == spec_trim_end(value@.lexeme)
                    &&& final(res).ttl == old(res).ttl
                    &&& spec_records(final(res).records@) == spec_records(old(res).records@)
                },
                Some(Keyword::TTL) => {
                    match crate::addr::spec_dec_u32_of(value@.lexeme) {
                        Some(v) => {
                            &&& r matches Ok(u) && u == ()
                            &&& final(res).ttl == Some(v)
                            &&& final(res).origin@ == old(res).origin@
                            &&& spec_records(final(res).records@) == spec_records(
                                old(res).records@,
                            )
                        },
                        None => r matches Err(e) && e == (ParserError {
                            line: value@.line,
                            err: ParserErrorKind::BadDirective,
                        }),
                    }
                },
                Some(_) => r matches Err(e) && e == (ParserError {
                    line: value@.line,
                    err: ParserErrorKind::BadDirective,
                }),
                None => r matches Err(e) && e == (ParserError {
                    line: keyword@.line,
                    err: ParserErrorKind::BadDirective,
                }),
            }
        }),
{
    match Keyword::from(keyword.lexeme.as_slice()) {
        Some(Keyword::Origin) => {
            res.origin = trim_end(value.lexeme);
            Ok(())
        },
        Some(Keyword::TTL) => {
            match parse_dec_u32(value.lexeme.as_slice()) {
                Some(ttl) => {
                    res.ttl = Some(ttl);
                    Ok(())
                },
                None => Err(ParserError::new(value.line, ParserErrorKind::BadDirective)),
            }
        },
        Some(_) => Err(ParserError::new(value.line, ParserErrorKind::BadDirective)),
        None => Err(ParserError::new(keyword.line, ParserErrorKind::BadDirective)),
    }
}

/// Hands the next token out, or fails with the line of the construct
/// that needed it.
fn get_next_token(tokens: &Vec<Token>, idx: &mut usize, line: u16) -> (r: Result<
    Token,
    ParserError,
>)
    ensures
        *old(idx) < tokens@.len() ==> {
            &&& r matches Ok(t) && t@ == tokens@[*old(idx) as int]@
            &&& *final(idx) == *old(idx) + 1
        },
        *old(idx) >= tokens@.len() ==> {
            &&& r matches Err(e) && e == (ParserError {
                line,
                err: ParserErrorKind::UnexpectedEOF,
            })
            &&& *final(idx) == *old(idx)
        },
{
    if *idx < tokens.len() {
        let t = tokens[*idx].clone();
        *idx = *idx + 1;
        Ok(t)
    } else {
        Err(ParserError::new(line, ParserErrorKind::UnexpectedEOF))
    }
}

/// The first position at or past `i` whose token is not a whitespace
/// marker; the end when none is left.
pub open spec fn spec_skip_ws(toks: Seq<crate::zone::token::TokenView>, i: int) -> int
    decreases toks.len() - i,
{
    if i < 0 || i >= toks.len() {
        toks.len() as int
    } else if toks[i].token_type == TokenType::WhiteSpace {
        spec_skip_ws(toks, i + 1)
    } else {
        i
    }
}

/// The skip never moves backward and stops inside the stream.
pub proof fn lemma_skip_ws_bounds(toks: Seq<crate::zone::token::TokenView>, i: int)
    requires
        0 <= i <= toks.len(),
    ensures
        i <= spec_skip_ws(toks, i) <= toks.len(),
    decreases toks.len() - i,
{
    if i < toks.len() && toks[i].token_type == TokenType::WhiteSpace {
        lemma_skip_ws_bounds(toks, i + 1);
    }
}

/// Hands the next token that is not a whitespace marker out.
#[verifier::loop_isolation(false)]
fn get_next_non_empty_token(tokens: &Vec<Token>, idx: &mut usize, line: u16) -> (r: Result<
    Token,
    ParserError,
>)
    requires
        *old(idx) <= tokens@.len(),
    ensures
        *final(idx) >= *old(idx),
        ({
            let j = spec_skip_ws(spec_token_views(tokens@), *old(idx) as int);
            if j < tokens@.len() {
                &&& r matches Ok(t) && t@ == tokens@[j]@
                &&& *final(idx) == j + 1
                &&& *final(idx) > *old(idx)
            } else {
                &&& r matches Err(e) && e == (ParserError {
                    line,
                    err: ParserErrorKind::UnexpectedEOF,
                })
                &&& *final(idx) == tokens@.len()
            }
        }),
{
    let ghost tv = spec_token_views(tokens@);
    proof {
        lemma_skip_ws_bounds(tv, *idx as int);
    }
    while *idx < tokens.len()
        invariant
            *old(idx) <= *idx <= tokens@.len(),
            spec_skip_ws(tv, *old(idx) as int) == spec_skip_ws(tv, *idx as int),
        decreases tokens@.len() - *idx,
    {
        proof {
            assert(tv[*idx as int] == tokens@[*idx as int]@);
        }
        let t = tokens[*idx].clone();
        *idx = *idx + 1;
        if !token_type_eq(t.token_type, TokenType::WhiteSpace) {
            proof {
                assert(spec_skip_ws(tv, *idx as int - 1) == *idx - 1);
            }
            return Ok(t);
        }
    }

    Err(ParserError::new(line, ParserErrorKind::UnexpectedEOF))
}

/// Compares two token kinds.
fn token_type_eq(a: TokenType, b: TokenType) -> (r: bool)
    ensures
        r == (a == b),
{
    match (a, b) {
        (TokenType::DolorSign, TokenType::DolorSign) => true,
        (TokenType::SemiColon, TokenType::SemiColon) => true,
        (TokenType::LeftParenthesis, TokenType::LeftParenthesis) => true,
        (TokenType::RightParenthesis, TokenType::RightParenthesis) => true,
        (TokenType::AtSign, TokenType::AtSign) => true,
        (TokenType::Text, TokenType::Text) => true,
        (TokenType::WhiteSpace, TokenType::WhiteSpace) => true,
        (TokenType::EOL, TokenType::EOL) => true,
        _ => false,
    }
}

/// The record type a type token names, compared without case.
pub open spec fn spec_record_type_of(lexeme: Seq<u8>) -> Option<QueryType> {
    spec_record_type_of_low(spec_lowered(lexeme))
}

/// Reads the record type a type token names.
#[verifier::rlimit(100)]
fn record_type_of(t: &Token) -> (r: Option<QueryType>)
    ensures
        r == spec_record_type_of(t@.lexeme),
{
    let low = crate::parser::lower_bytes(t.lexeme.as_slice());
    let ghost lv = spec_lowered(t@.lexeme);
    let n = low.len();
    if n == 1 && low[0] == 97 {
        proof {
            assert(lv =~= seq![97u8]);
        }
        Some(QueryType::A)
    } else if n == 4 && low[0] == 97 && low[1] == 97 && low[2] == 97 && low[3] == 97 {
        proof {
            assert(lv =~= seq![97u8, 97u8, 97u8, 97u8]);
            assert(lv != seq![97u8]);
        }
        Some(QueryType::AAAA)
    } else if n == 2 && low[0] == 110 && low[1] == 115 {
        proof {
            assert(lv =~= seq![110u8, 115u8]);
            assert(lv != seq![97u8] && lv != seq![97u8, 97u8, 97u8, 97u8]);
        }
        Some(QueryType::NS)
    } else if n == 5 && low[0] == 99 && low[1] == 110 && low[2] == 97 && low[3] == 109 && low[4]
        == 101 {
        proof {
            assert(lv =~= seq![99u8, 110u8, 97u8, 109u8, 101u8]);
            assert(lv != seq![97u8] && lv != seq![97u8, 97u8, 97u8, 97u8] && lv != seq![
                110u8,
                115u8,
            ]);
        }
        Some(QueryType::CNAME)
    } else if n == 3 && low[0] == 115 && low[1] == 111 && low[2] == 97 {
        proof {
            assert(lv =~= seq![115u8, 111u8, 97u8]);
            lemma_type_lits_differ(lv);
        }
        Some(QueryType::SOA)
    } else if n == 2 && low[0] == 109 && low[1] == 120 {
        proof {
            assert(lv =~= seq![109u8, 120u8]);
            lemma_type_lits_differ(lv);
        }
        Some(QueryType::MX)
    } else if n == 3 && low[0] == 112 && low[1] == 116 && low[2] == 114 {
        proof {
            assert(lv =~= seq![112u8, 116u8, 114u8]);
            lemma_type_lits_differ(lv);
        }
        Some(QueryType::PTR)
    } else if n == 5 && low[0] == 104 && low[1] == 105 && low[2] == 110 && low[3] == 102 && low[4]
        == 111 {
        proof {
            assert(lv =~= seq![104u8, 105u8, 110u8, 102u8, 111u8]);
            lemma_type_lits_differ(lv);
        }
        Some(QueryType::HINFO)
    } else if n == 3 && low[0] == 116 && low[1] == 120 && low[2] == 116 {
        proof {
            assert(lv =~= seq![116u8, 120u8, 116u8]);
            lemma_type_lits_differ(lv);
        }
        Some(QueryType::TXT)
    } else {
        proof {
            assert(lv == low@);
            lemma_type_lits_none(lv);
        }
        None
    }
}

/// Two unequal concrete byte strings differ as sequences: knowing one
/// literal pins the lowered lexeme against all the others.
proof fn lemma_type_lits_differ(lv: Seq<u8>)
    ensures
        lv == seq![115u8, 111u8, 97u8] ==> lv != seq![97u8] && lv != seq![
            97u8,
            97u8,
            97u8,
            97u8,
        ] && lv != seq![110u8, 115u8] && lv != seq![99u8, 110u8, 97u8, 109u8, 101u8],
        lv == seq![109u8, 120u8] ==> lv != seq![97u8] && lv != seq![97u8, 97u8, 97u8, 97u8] && lv
            != seq![110u8, 115u8] && lv != seq![99u8, 110u8, 97u8, 109u8, 101u8] && lv != seq![
            115u8,
            111u8,
            97u8,
        ],
        lv == seq![112u8, 116u8, 114u8] ==> lv != seq![97u8] && lv != seq![97u8, 97u8, 97u8, 97u8]
            && lv != seq![110u8, 115u8] && lv != seq![99u8, 110u8, 97u8, 109u8, 101u8] && lv
            != seq![115u8, 111u8, 97u8] && lv != seq![109u8, 120u8],
        lv == seq![104u8, 105u8, 110u8, 102u8, 111u8] ==> lv != seq![97u8] && lv != seq![
            97u8,
            97u8,
            97u8,
            97u8,
        ] && lv != seq![110u8, 115u8] && lv != seq![99u8, 110u8, 97u8, 109u8, 101u8] && lv != seq![
            115u8,
            111u8,
            97u8,
        ] && lv != seq![109u8, 120u8] && lv != seq![112u8, 116u8, 114u8],
        lv == seq![116u8, 120u8, 116u8] ==> lv != seq![97u8] && lv != seq![97u8, 97u8, 97u8, 97u8]
            && lv != seq![110u8, 115u8] && lv != seq![99u8, 110u8, 97u8, 109u8, 101u8] && lv
            != seq![115u8, 111u8, 97u8] && lv != seq![109u8, 120u8] && lv != seq![
            112u8,
            116u8,
            114u8,
        ] && lv != seq![104u8, 105u8, 110u8, 102u8, 111u8],
{
}

/// A lowered lexeme that fails every elementwise comparison differs
/// from every type literal.
proof fn lemma_type_lits_none(lv: Seq<u8>)
    requires
        !(lv.len() == 1 && lv[0] == 97),
        !(lv.len() == 4 && lv[0] == 97 && lv[1] == 97 && lv[2] == 97 && lv[3] == 97),
        !(lv.len() == 2 && lv[0] == 110 && lv[1] == 115),
        !(lv.len() == 5 && lv[0] == 99 && lv[1] == 110 && lv[2] == 97 && lv[3] == 109 && lv[4]
            == 101),
        !(lv.len() == 3 && lv[0] == 115 && lv[1] == 111 && lv[2] == 97),
        !(lv.len() == 2 && lv[0] == 109 && lv[1] == 120),
        !(lv.len() == 3 && lv[0] == 112 && lv[1] == 116 && lv[2] == 114),
        !(lv.len() == 5 && lv[0] == 104 && lv[1] == 105 && lv[2] == 110 && lv[3] == 102 && lv[4]
            == 111),
        !(lv.len() == 3 && lv[0] == 116 && lv[1] == 120 && lv[2] == 116),
    ensures
        spec_record_type_of_low(lv) is None,
{
    if lv == seq![97u8] {
        assert(lv.len() == 1 && lv[0] == 97);
    }
    if lv == seq![97u8, 97u8, 97u8, 97u8] {
        assert(lv.len() == 4 && lv[0] == 97 && lv[1] == 97 && lv[2] == 97 && lv[3] == 97);
    }
    if lv == seq![110u8, 115u8] {
        assert(lv.len() == 2 && lv[0] == 110 && lv[1] == 115);
    }
    if lv == seq![99u8, 110u8, 97u8, 109u8, 101u8] {
        assert(lv.len() == 5 && lv[0] == 99 && lv[1] == 110 && lv[2] == 97 && lv[3] == 109 && lv[4]
            == 101);
    }
    if lv == seq![115u8, 111u8, 97u8] {
        assert(lv.len() == 3 && lv[0] == 115 && lv[1] == 111 && lv[2] == 97);
    }
    if lv == seq![109u8, 120u8] {
        assert(lv.len() == 2 && lv[0] == 109 && lv[1] == 120);
    }
    if lv == seq![112u8, 116u8, 114u8] {
        assert(lv.len() == 3 && lv[0] == 112 && lv[1] == 116 && lv[2] == 114);
    }
    if lv == seq![104u8, 105u8, 110u8, 102u8, 111u8] {
        assert(lv.len() == 5 && lv[0] == 104 && lv[1] == 105 && lv[2] == 110 && lv[3] == 102
            && lv[4] == 111);
    }
    if lv == seq![116u8, 120u8, 116u8] {
        assert(lv.len() == 3 && lv[0] == 116 && lv[1] == 120 && lv[2] == 116);
    }
}

/// The dispatch over an already lowered lexeme.
pub open spec fn spec_record_type_of_low(low: Seq<u8>) -> Option<QueryType> {
    if low == seq![97u8] {
        Some(QueryType::A)
    } else if low == seq![97u8, 97u8, 97u8, 97u8] {
        Some(QueryType::AAAA)
    } else if low == seq![110u8, 115u8] {
        Some(QueryType::NS)
    } else if low == seq![99u8, 110u8, 97u8, 109u8, 101u8] {
        Some(QueryType::CNAME)
    } else if low == seq![115u8, 111u8, 97u8] {
        Some(QueryType::SOA)
    } else if low == seq![109u8, 120u8] {
        Some(QueryType::MX)
    } else if low == seq![112u8, 116u8, 114u8] {
        Some(QueryType::PTR)
    } else if low == seq![104u8, 105u8, 110u8, 102u8, 111u8] {
        Some(QueryType::HINFO)
    } else if low == seq![116u8, 120u8, 116u8] {
        Some(QueryType::TXT)
    } else {
        None
    }
}

/// The lowercased bytes of a lexeme.
pub open spec fn spec_lowered(s: Seq<u8>) -> Seq<u8> {
    s.map_values(|b: u8| crate::parser::spec_lower(b))
}

/// One directive or record line consumed from the token stream at `i`,
/// mirroring the grammar exactly: a dollar directive updates the
/// origin or default TTL; a record line names its owner (or reuses the
/// last), may carry a TTL, must be of the IN class, and closes with
/// its type's data.  The result carries the new origin, default TTL,
/// record list and stream position.
pub open spec fn spec_zone_step(
    toks: Seq<TokenView>,
    i: int,
    origin: Seq<u8>,
    ttl: Option<u32>,
    records: Seq<RecordView>,
) -> Result<(Seq<u8>, Option<u32>, Seq<RecordView>, int), ParserError> {
    let t = toks[i];
    if t.token_type == TokenType::DolorSign {
        if i + 1 >= toks.len() || i + 2 >= toks.len() {
            Err(ParserError { line: t.line, err: ParserErrorKind::UnexpectedEOF })
        } else {
            let keyword = toks[i + 1];
            let value = toks[i + 2];
            match Keyword::spec_from(keyword.lexeme) {
                Some(Keyword::Origin) => Ok(
                    (spec_trim_end(value.lexeme), ttl, records, i + 3),
                ),
                Some(Keyword::TTL) => match crate::addr::spec_dec_u32_of(value.lexeme) {
                    Some(v) => Ok((origin, Some(v), records, i + 3)),
                    None => Err(
                        ParserError { line: value.line, err: ParserErrorKind::BadDirective },
                    ),
                },
                Some(_) => Err(
                    ParserError { line: value.line, err: ParserErrorKind::BadDirective },
                ),
                None => Err(
                    ParserError { line: keyword.line, err: ParserErrorKind::BadDirective },
                ),
            }
        }
    } else {
        let base_ttl: u32 = match ttl {
            Some(v) => v,
            None => 0,
        };
        let owner_ok: bool = if t.token_type == TokenType::AtSign {
            origin.len() > 0
        } else if t.token_type == TokenType::Text {
            true
        } else if t.token_type == TokenType::WhiteSpace {
            records.len() > 0
        } else {
            false
        };
        if !owner_ok {
            Err(ParserError { line: t.line, err: ParserErrorKind::BadRecord })
        } else {
            let owner: Seq<u8> = if t.token_type == TokenType::AtSign {
                origin
            } else if t.token_type == TokenType::Text {
                spec_to_domain(t.lexeme, origin)
            } else {
                records.last().domain
            };
            if i + 1 >= toks.len() {
                Err(ParserError { line: t.line, err: ParserErrorKind::UnexpectedEOF })
            } else {
                let has_ttl = crate::addr::spec_dec_u32_of(toks[i + 1].lexeme) is Some;
                let rttl: u32 = if has_ttl {
                    crate::addr::spec_dec_u32_of(toks[i + 1].lexeme)->Some_0
                } else {
                    base_ttl
                };
                let cp: int = if has_ttl {
                    i + 2
                } else {
                    i + 1
                };
                if cp >= toks.len() {
                    Err(ParserError { line: t.line, err: ParserErrorKind::UnexpectedEOF })
                } else if !(toks[cp].lexeme == seq![73u8, 78u8]) {
                    Err(ParserError { line: toks[cp].line, err: ParserErrorKind::BadRecord })
                } else if cp + 1 >= toks.len() {
                    Err(ParserError { line: t.line, err: ParserErrorKind::UnexpectedEOF })
                } else {
                    let typ = toks[cp + 1];
                    let d = cp + 2;
                    match spec_zone_rdata(toks, d, t.line, typ, origin) {
                        Ok((rtype, data, next)) => Ok(
                            (
                                origin,
                                ttl,
                                records.push(
                                    RecordView {
                                        domain: owner,
                                        rtype,
                                        rclass: QueryClass::IN,
                                        ttl: rttl,
                                        len: 0,
                                        data,
                                    },
                                ),
                                next,
                            ),
                        ),
                        Err(e) => Err(e),
                    }
                }
            }
        }
    }
}

/// The data of one record line, read from position `d` as the type
/// token dictates.
pub open spec fn spec_zone_rdata(
    toks: Seq<TokenView>,
    d: int,
    line: u16,
    typ: TokenView,
    origin: Seq<u8>,
) -> Result<(QueryType, crate::record::RecordDataView, int), ParserError> {
    let low = spec_lowered(typ.lexeme);
    if low == seq![97u8] {
        if d >= toks.len() {
            Err(ParserError { line, err: ParserErrorKind::UnexpectedEOF })
        } else {
            match crate::addr::spec_ipv4_of(toks[d].lexeme) {
                Some(a) => Ok((QueryType::A, crate::record::RecordDataView::A(a), d + 1)),
                None => Err(ParserError { line: toks[d].line, err: ParserErrorKind::BadRecord }),
            }
        }
    } else if low == seq![97u8, 97u8, 97u8, 97u8] {
        if d >= toks.len() {
            Err(ParserError { line, err: ParserErrorKind::UnexpectedEOF })
        } else {
            match crate::addr::spec_ipv6_of(toks[d].lexeme) {
                Some(a) => Ok((QueryType::AAAA, crate::record::RecordDataView::AAAA(a), d + 1)),
                None => Err(ParserError { line: toks[d].line, err: ParserErrorKind::BadRecord }),
            }
        }
    } else if low == seq![110u8, 115u8] {
        if d >= toks.len() {
            Err(ParserError { line, err: ParserErrorKind::UnexpectedEOF })
        } else {
            Ok(
                (
                    QueryType::NS,
                    crate::record::RecordDataView::NS(spec_to_domain(toks[d].lexeme, origin)),
                    d + 1,
                ),
            )
        }
    } else if low == seq![99u8, 110u8, 97u8, 109u8, 101u8] {
        if d >= toks.len() {
            Err(ParserError { line, err: ParserErrorKind::UnexpectedEOF })
        } else {
            Ok(
                (
                    QueryType::CNAME,
                    crate::record::RecordDataView::CNAME(spec_to_domain(toks[d].lexeme, origin)),
                    d + 1,
                ),
            )
        }
    } else if low == seq![115u8, 111u8, 97u8] {
        spec_zone_soa(toks, d, line, origin)
    } else if low == seq![109u8, 120u8] {
        if d >= toks.len() || d + 1 >= toks.len() {
            Err(ParserError { line, err: ParserErrorKind::UnexpectedEOF })
        } else {
            match crate::addr::spec_dec_u16_of(toks[d].lexeme) {
                Some(p) => Ok(
                    (
                        QueryType::MX,
                        crate::record::RecordDataView::MX {
                            preference: p,
                            exchange: spec_to_domain(toks[d + 1].lexeme, origin),
                        },
                        d + 2,
                    ),
                ),
                None => Err(ParserError { line: toks[d].line, err: ParserErrorKind::BadRecord }),
            }
        }
    } else if low == seq![112u8, 116u8, 114u8] {
        if d >= toks.len() {
            Err(ParserError { line, err: ParserErrorKind::UnexpectedEOF })
        } else {
            Ok(
                (
                    QueryType::PTR,
                    crate::record::RecordDataView::PTR(spec_to_domain(toks[d].lexeme, origin)),
                    d + 1,
                ),
            )
        }
    } else if low == seq![104u8, 105u8, 110u8, 102u8, 111u8] {
        if d >= toks.len() || d + 1 >= toks.len() {
            Err(ParserError { line, err: ParserErrorKind::UnexpectedEOF })
        } else {
            Ok(
                (
                    QueryType::HINFO,
                    crate::record::RecordDataView::HINFO {
                        cpu: toks[d].lexeme,
                        os: toks[d + 1].lexeme,
                    },
                    d + 2,
                ),
            )
        }
    } else if low == seq![116u8, 120u8, 116u8] {
        if d >= toks.len() {
            Err(ParserError { line, err: ParserErrorKind::UnexpectedEOF })
        } else {
            Ok((QueryType::TXT, crate::record::RecordDataView::TXT(toks[d].lexeme), d + 1))
        }
    } else {
        Err(ParserError { line: typ.line, err: ParserErrorKind::BadRecord })
    }
}

/// An SOA's data: the two names, then five numbers inside parentheses,
/// whitespace markers skipped.
pub open spec fn spec_zone_soa(
    toks: Seq<TokenView>,
    d: int,
    line: u16,
    origin: Seq<u8>,
) -> Result<(QueryType, crate::record::RecordDataView, int), ParserError> {
    if d >= toks.len() || d + 1 >= toks.len() || d + 2 >= toks.len() {
        Err(ParserError { line, err: ParserErrorKind::UnexpectedEOF })
    } else if toks[d + 2].token_type != TokenType::LeftParenthesis {
        Err(ParserError { line: toks[d + 2].line, err: ParserErrorKind::BadRecord })
    } else {
        let s1 = spec_skip_ws(toks, d + 3);
        let s2 = spec_skip_ws(toks, s1 + 1);
        let s3 = spec_skip_ws(toks, s2 + 1);
        let s4 = spec_skip_ws(toks, s3 + 1);
        let s5 = spec_skip_ws(toks, s4 + 1);
        let rp = spec_skip_ws(toks, s5 + 1);
        if s1 >= toks.len() || s2 >= toks.len() || s3 >= toks.len() || s4 >= toks.len() || s5
            >= toks.len() || rp >= toks.len() {
            Err(ParserError { line, err: ParserErrorKind::UnexpectedEOF })
        } else if toks[rp].token_type != TokenType::RightParenthesis {
            Err(ParserError { line: toks[rp].line, err: ParserErrorKind::BadRecord })
        } else {
            let serial = crate::addr::spec_dec_u32_of(toks[s1].lexeme);
            let refresh = crate::addr::spec_dec_u32_of(toks[s2].lexeme);
            let retry = crate::addr::spec_dec_u32_of(toks[s3].lexeme);
            let expire = crate::addr::spec_dec_u32_of(toks[s4].lexeme);
            let minimum = crate::addr::spec_dec_u32_of(toks[s5].lexeme);
            if serial is None {
                Err(ParserError { line: toks[s1].line, err: ParserErrorKind::BadRecord })
            } else if refresh is None {
                Err(ParserError { line: toks[s2].line, err: ParserErrorKind::BadRecord })
            } else if retry is None {
                Err(ParserError { line: toks[s3].line, err: ParserErrorKind::BadRecord })
            } else if expire is None {
                Err(ParserError { line: toks[s4].line, err: ParserErrorKind::BadRecord })
            } else if minimum is None {
                Err(ParserError { line: toks[s5].line, err: ParserErrorKind::BadRecord })
            } else {
                Ok(
                    (
                        QueryType::SOA,
                        crate::record::RecordDataView::SOA {
                            mname: spec_to_domain(toks[d].lexeme, origin),
                            rname: spec_to_domain(toks[d + 1].lexeme, origin),
                            serial: serial->Some_0,
                            refresh: refresh->Some_0,
                            retry: retry->Some_0,
                            expire: expire->Some_0,
                            minimum: minimum->Some_0,
                        },
                        rp + 1,
                    ),
                )
            }
        }
    }
}

/// A consumed entry always advances the stream.
pub proof fn lemma_zone_step_advances(
    toks: Seq<TokenView>,
    i: int,
    origin: Seq<u8>,
    ttl: Option<u32>,
    records: Seq<RecordView>,
)
    requires
        0 <= i < toks.len(),
    ensures
        ({
            match spec_zone_step(toks, i, origin, ttl, records) {
                Ok((o, t, r, j)) => i < j <= toks.len(),
                Err(_) => true,
            }
        }),
{
    if spec_zone_step(toks, i, origin, ttl, records) is Ok {
        let t = toks[i];
        if t.token_type != TokenType::DolorSign {
            let has_ttl = crate::addr::spec_dec_u32_of(toks[i + 1].lexeme) is Some;
            let cp: int = if has_ttl {
                i + 2
            } else {
                i + 1
            };
            let d = cp + 2;
            let low = spec_lowered(toks[cp + 1].lexeme);
            if low == seq![115u8, 111u8, 97u8] {
                lemma_skip_ws_bounds(toks, d + 3);
                let s1 = spec_skip_ws(toks, d + 3);
                lemma_skip_ws_bounds(toks, s1 + 1);
                let s2 = spec_skip_ws(toks, s1 + 1);
                lemma_skip_ws_bounds(toks, s2 + 1);
                let s3 = spec_skip_ws(toks, s2 + 1);
                lemma_skip_ws_bounds(toks, s3 + 1);
                let s4 = spec_skip_ws(toks, s3 + 1);
                lemma_skip_ws_bounds(toks, s4 + 1);
                let s5 = spec_skip_ws(toks, s4 + 1);
                lemma_skip_ws_bounds(toks, s5 + 1);
            }
        }
    }
}

/// The whole token stream consumed from `i` on.
pub open spec fn spec_zone_entries(
    toks: Seq<TokenView>,
    i: int,
    origin: Seq<u8>,
    ttl: Option<u32>,
    records: Seq<RecordView>,
) -> Result<(Seq<u8>, Option<u32>, Seq<RecordView>), ParserError>
    decreases toks.len() - i,
{
    if i < 0 || i >= toks.len() {
        Ok((origin, ttl, records))
    } else {
        match spec_zone_step(toks, i, origin, ttl, records) {
            Ok((o, t, r, j)) => if i < j <= toks.len() {
                spec_zone_entries(toks, j, o, t, r)
            } else {
                // a consumed entry always advances; see the lemma above
                Err(ParserError { line: 0, err: ParserErrorKind::BadRecord })
            },
            Err(e) => Err(e),
        }
    }
}

/// What the whole master file parses to: its scanned tokens consumed
/// entry by entry, and the record list required to hold an SOA.
pub open spec fn spec_parse_zone(toks: Seq<TokenView>) -> Result<
    (Seq<u8>, Option<u32>, Seq<RecordView>),
    ParserError,
> {
    match spec_zone_entries(toks, 0, seq![], None::<u32>, seq![]) {
        Ok((o, t, r)) => if spec_has_soa(r) {
            Ok((o, t, r))
        } else {
            Err(ParserError { line: 0, err: ParserErrorKind::BadRecord })
        },
        Err(e) => Err(e),
    }
}

/// Consumes one directive or record line from the token stream,
/// exactly as `spec_zone_step` says.
#[verifier::loop_isolation(false)]
#[verifier::rlimit(100)]
#[verifier::spinoff_prover]
fn parse_entry(tokens: &Vec<Token>, idx: &mut usize, res: &mut Zone) -> (r: Result<
    (),
    ParserError,
>)
    requires
        *old(idx) < tokens@.len(),
    ensures
        ({
            let tv = spec_token_views(tokens@);
            match spec_zone_step(
                tv,
                *old(idx) as int,
                old(res).origin@,
                old(res).ttl,
                spec_records(old(res).records@),
            ) {
                Ok((o, t, rr, j)) => {
                    &&& r matches Ok(u) && u == ()
                    &&& final(res).origin@ == o
                    &&& final(res).ttl == t
                    &&& spec_records(final(res).records@) == rr
                    &&& *final(idx) == j
                },
                Err(e) => r matches Err(e2) && e2 == e,
            }
        }),
{
    let ghost tv = spec_token_views(tokens@);
    let ghost i0 = *idx as int;
    proof {
        assert(forall|k: int| 0 <= k < tokens@.len() ==> (#[trigger] tv[k]) == tokens@[k]@);
    }
    // the stream's length fits the machine word, so the cursor can step
    let _stream_len = tokens.len();

    let token = tokens[*idx].clone();
    *idx = *idx + 1;

    if token_type_eq(token.token_type, TokenType::DolorSign) {
        let keyword = get_next_token(tokens, idx, token.line)?;
        let value = get_next_token(tokens, idx, token.line)?;

        parse_keywords(&keyword, value, res)?;
        Ok(())
    } else {
        let mut record = Record::default();

        if let Some(ttl) = res.ttl {
            record.ttl = ttl;
        }

        if token_type_eq(token.token_type, TokenType::AtSign) {
            if res.origin.len() == 0 {
                return Err(ParserError::new(token.line, ParserErrorKind::BadRecord));
            }
            record.domain = clone_bytes(&res.origin);
        } else if token_type_eq(token.token_type, TokenType::Text) {
            record.domain = to_domain(token.lexeme, &res.origin);
        } else if token_type_eq(token.token_type, TokenType::WhiteSpace) {
            if res.records.len() == 0 {
                return Err(ParserError::new(token.line, ParserErrorKind::BadRecord));
            }
            record.domain = clone_bytes(&res.records[res.records.len() - 1].domain);
            proof {
                assert(record.domain@ == spec_records(res.records@).last().domain);
            }
        } else {
            return Err(ParserError::new(token.line, ParserErrorKind::BadRecord));
        }

        let mut next_token = get_next_token(tokens, idx, token.line)?;
        if let Some(ttl) = crate::addr::parse_dec_u32(next_token.lexeme.as_slice()) {
            record.ttl = ttl;
            next_token = get_next_token(tokens, idx, token.line)?;
        }

        // only the IN class is served
        let class_ok = next_token.lexeme.len() == 2 && next_token.lexeme[0] == 73
            && next_token.lexeme[1] == 78;
        proof {
            if class_ok {
                assert(next_token@.lexeme =~= seq![73u8, 78u8]);
            } else if next_token@.lexeme == seq![73u8, 78u8] {
                assert(next_token@.lexeme.len() == 2 && next_token@.lexeme[0] == 73
                    && next_token@.lexeme[1] == 78);
            }
        }
        if !class_ok {
            return Err(ParserError::new(next_token.line, ParserErrorKind::BadRecord));
        }
        record.rclass = QueryClass::IN;

        let typ = get_next_token(tokens, idx, token.line)?;
        let rtype = match record_type_of(&typ) {
            Some(rtype) => rtype,
            None => {
                return Err(ParserError::new(typ.line, ParserErrorKind::BadRecord));
            },
        };
        record.rtype = rtype;
        record.data = parse_record_data(tokens, idx, token.line, rtype, &typ, &res.origin)?;

        let ghost before = spec_records(res.records@);
        res.records.push(record);
        proof {
            assert(spec_records(res.records@) =~= before.push(record@));
        }
        Ok(())
    }
}

/// Reads one record's data from the token stream, exactly as
/// `spec_zone_rdata` says for the record's type token.
#[verifier::loop_isolation(false)]
#[verifier::rlimit(100)]
#[verifier::spinoff_prover]
fn parse_record_data(
    tokens: &Vec<Token>,
    idx: &mut usize,
    line: u16,
    rtype: QueryType,
    typ: &Token,
    origin: &Vec<u8>,
) -> (r: Result<RecordData, ParserError>)
    requires
        *old(idx) <= tokens@.len(),
        spec_record_type_of(typ@.lexeme) == Some(rtype),
    ensures
        ({
            let tv = spec_token_views(tokens@);
            match spec_zone_rdata(tv, *old(idx) as int, line, typ@, origin@) {
                Ok((rt, data, j)) => {
                    &&& r matches Ok(d) && d@ == data && rt == rtype
                    &&& *final(idx) == j
                },
                Err(e) => r matches Err(e2) && e2 == e,
            }
        }),
{
    let ghost tv = spec_token_views(tokens@);
    proof {
        assert(forall|k: int| 0 <= k < tokens@.len() ==> (#[trigger] tv[k]) == tokens@[k]@);
    }

    match rtype {
        QueryType::A => {
            let addr_token = get_next_token(tokens, idx, line)?;
            match crate::addr::parse_ipv4(addr_token.lexeme.as_slice()) {
                Some(addr) => Ok(RecordData::A(addr)),
                None => Err(ParserError::new(addr_token.line, ParserErrorKind::BadRecord)),
            }
        },
        QueryType::AAAA => {
            let addr_token = get_next_token(tokens, idx, line)?;
            match crate::addr::parse_ipv6(addr_token.lexeme.as_slice()) {
                Some(addr) => Ok(RecordData::AAAA(addr)),
                None => Err(ParserError::new(addr_token.line, ParserErrorKind::BadRecord)),
            }
        },
        QueryType::NS => {
            let ns = get_next_token(tokens, idx, line)?;
            Ok(RecordData::NS(to_domain(ns.lexeme, origin)))
        },
        QueryType::CNAME => {
            let cname = get_next_token(tokens, idx, line)?;
            Ok(RecordData::CNAME(to_domain(cname.lexeme, origin)))
        },
        QueryType::SOA => {
            let mname = get_next_token(tokens, idx, line)?;
            let rname = get_next_token(tokens, idx, line)?;

            let left_paren = get_next_token(tokens, idx, line)?;
            if !token_type_eq(left_paren.token_type, TokenType::LeftParenthesis) {
                return Err(ParserError::new(left_paren.line, ParserErrorKind::BadRecord));
            }

            let serial = get_next_non_empty_token(tokens, idx, line)?;
            let refresh = get_next_non_empty_token(tokens, idx, line)?;
            let retry = get_next_non_empty_token(tokens, idx, line)?;
            let expire = get_next_non_empty_token(tokens, idx, line)?;
            let minimum = get_next_non_empty_token(tokens, idx, line)?;

            let right_paren = get_next_non_empty_token(tokens, idx, line)?;
            if !token_type_eq(right_paren.token_type, TokenType::RightParenthesis) {
                return Err(ParserError::new(right_paren.line, ParserErrorKind::BadRecord));
            }

            let serial_v = match crate::addr::parse_dec_u32(serial.lexeme.as_slice()) {
                Some(v) => v,
                None => {
                    return Err(ParserError::new(serial.line, ParserErrorKind::BadRecord));
                },
            };
            let refresh_v = match crate::addr::parse_dec_u32(refresh.lexeme.as_slice()) {
                Some(v) => v,
                None => {
                    return Err(ParserError::new(refresh.line, ParserErrorKind::BadRecord));
                },
            };
            let retry_v = match crate::addr::parse_dec_u32(retry.lexeme.as_slice()) {
                Some(v) => v,
                None => {
                    return Err(ParserError::new(retry.line, ParserErrorKind::BadRecord));
                },
            };
            let expire_v = match crate::addr::parse_dec_u32(expire.lexeme.as_slice()) {
                Some(v) => v,
                None => {
                    return Err(ParserError::new(expire.line, ParserErrorKind::BadRecord));
                },
            };
            let minimum_v = match crate::addr::parse_dec_u32(minimum.lexeme.as_slice()) {
                Some(v) => v,
                None => {
                    return Err(ParserError::new(minimum.line, ParserErrorKind::BadRecord));
                },
            };

            Ok(RecordData::SOA {
                mname: to_domain(mname.lexeme, origin),
                rname: to_domain(rname.lexeme, origin),
                serial: serial_v,
                refresh: refresh_v,
                retry: retry_v,
                expire: expire_v,
                minimum: minimum_v,
            })
        },
        QueryType::MX => {
            let preference = get_next_token(tokens, idx, line)?;
            let exchange = get_next_token(tokens, idx, line)?;
            let preference_v = match crate::addr::parse_dec_u16(preference.lexeme.as_slice()) {
                Some(v) => v,
                None => {
                    return Err(ParserError::new(preference.line, ParserErrorKind::BadRecord));
                },
            };
            Ok(RecordData::MX {
                preference: preference_v,
                exchange: to_domain(exchange.lexeme, origin),
            })
        },
        QueryType::PTR => {
            let ptr = get_next_token(tokens, idx, line)?;
            Ok(RecordData::PTR(to_domain(ptr.lexeme, origin)))
        },
        QueryType::HINFO => {
            let cpu = get_next_token(tokens, idx, line)?;
            let os = get_next_token(tokens, idx, line)?;
            Ok(RecordData::HINFO { cpu: cpu.lexeme, os: os.lexeme })
        },
        QueryType::TXT => {
            let txt = get_next_token(tokens, idx, line)?;
            Ok(RecordData::TXT(txt.lexeme))
        },
        _ => {
            proof {
                assert(false);
            }
            Err(ParserError::new(line, ParserErrorKind::BadRecord))
        },
    }
}

impl Zone {
    /// Reads a whole master file into a zone, exactly as
    /// `spec_parse_zone` says of its scanned tokens: directives first
    /// bind the origin and default TTL; each record line carries an
    /// owner (or reuses the last), an optional TTL, the IN class, a
    /// type and its data.  A file without an SOA record is refused.
    #[verifier::loop_isolation(false)]
    #[verifier::rlimit(100)]
    pub fn parse(src: Vec<u8>) -> (r: Result<Zone, ParserError>)
        ensures
            ({
                match spec_parse_zone(spec_scan_from(spec_zone_lines(src@), 0)) {
                    Ok((o, t, rr)) => r matches Ok(zone) && zone.origin@ == o && zone.ttl == t
                        && spec_records(zone.records@) == rr,
                    Err(e) => r matches Err(e2) && e2 == e,
                }
            }),
            r matches Ok(zone) ==> spec_has_soa(spec_records(zone.records@)),
    {
        let scanner = Scanner::new(src)?;
        let tokens = scanner.scan()?;
        let ghost tv = spec_token_views(tokens@);
        let ghost overall = spec_zone_entries(tv, 0, seq![], None::<u32>, seq![]);

        let mut res = Zone { origin: Vec::new(), ttl: None, records: Vec::new() };
        let mut idx: usize = 0;

        proof {
            assert(res.origin@ =~= Seq::<u8>::empty());
            assert(spec_records(res.records@) =~= Seq::<RecordView>::empty());
        }

        while idx < tokens.len()
            invariant
                idx <= tokens@.len(),
                overall == spec_zone_entries(
                    tv,
                    idx as int,
                    res.origin@,
                    res.ttl,
                    spec_records(res.records@),
                ),
            decreases tokens@.len() - idx,
        {
            let ghost i0 = idx as int;
            let ghost o0 = res.origin@;
            let ghost t0 = res.ttl;
            let ghost r0 = spec_records(res.records@);

            parse_entry(&tokens, &mut idx, &mut res)?;

            proof {
                lemma_zone_step_advances(tv, i0, o0, t0, r0);
            }
        }

        if !has_soa(&res.records) {
            return Err(ParserError::new(0, ParserErrorKind::BadRecord));
        }

        Ok(res)
    }
}

/// Some stored record is an SOA.
#[verifier::loop_isolation(false)]
fn has_soa(records: &Vec<Record>) -> (r: bool)
    ensures
        r == spec_has_soa(spec_records(records@)),
{
    let mut i: usize = 0;
    while i < records.len()
        invariant
            0 <= i <= records@.len(),
            forall|k: int|
                0 <= k < i ==> (#[trigger] spec_records(records@)[k]).rtype != QueryType::SOA,
        decreases records@.len() - i,
    {
        proof {
            assert(spec_records(records@)[i as int] == records@[i as int]@);
        }
        let is_soa = match &records[i].rtype {
            QueryType::SOA => true,
            _ => false,
        };
        if is_soa {
            return true;
        }
        i = i + 1;
    }
    false
}

} // verus!
