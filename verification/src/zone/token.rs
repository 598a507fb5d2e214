use vstd::prelude::*;

verus! {

/// The directives a master file may open with a dollar sign.
#[derive(PartialEq, Eq, Structural, Clone, Copy, Debug)]
pub enum Keyword {
    Origin,
    Include,
    TTL,
    Generate,
}

impl Keyword {
    pub fn to_string(&self) -> (r: String)
        ensures
            ({
                match self {
                    Keyword::Origin => r@ == "origin"@,
                    Keyword::TTL => r@ == "ttl"@,
                    Keyword::Include => r@ == "include"@,
                    Keyword::Generate => r@ == "generate"@,
                }
            }),
    {
        match self {
            Keyword::Origin => "origin".to_string(),
            Keyword::TTL => "ttl".to_string(),
            Keyword::Include => "include".to_string(),
            Keyword::Generate => "generate".to_string(),
        }
    }

    /// The keyword a directive token names, compared without case.
    pub open spec fn spec_from(s: Seq<u8>) -> Option<Keyword> {
        let lower = s.map_values(|b: u8| crate::parser::spec_lower(b));
        if lower == seq![111u8, 114u8, 105u8, 103u8, 105u8, 110u8] {
            Some(Keyword::Origin)
        } else if lower == seq![116u8, 116u8, 108u8] {
            Some(Keyword::TTL)
        } else if lower == seq![105u8, 110u8, 99u8, 108u8, 117u8, 100u8, 101u8] {
            Some(Keyword::Include)
        } else if lower == seq![103u8, 101u8, 110u8, 101u8, 114u8, 97u8, 116u8, 101u8] {
            Some(Keyword::Generate)
        } else {
            None
        }
    }

    pub fn from(s: &[u8]) -> (r: Option<Keyword>)
        ensures
            r == Keyword::spec_from(s@),
    {
        let lower = crate::parser::lower_bytes(s);
        let ghost lv = s@.map_values(|b: u8| crate::parser::spec_lower(b));
        if eq_lit6(&lower, 111, 114, 105, 103, 105, 110) {
            proof {
                assert(lv =~= seq![111u8, 114u8, 105u8, 103u8, 105u8, 110u8]);
            }
            Some(Keyword::Origin)
        } else if lower.len() == 3 && lower[0] == 116 && lower[1] == 116 && lower[2] == 108 {
            proof {
                assert(lv =~= seq![116u8, 116u8, 108u8]);
                assert(lv != seq![111u8, 114u8, 105u8, 103u8, 105u8, 110u8]);
            }
            Some(Keyword::TTL)
        } else if lower.len() == 7 && lower[0] == 105 && lower[1] == 110 && lower[2] == 99
            && lower[3] == 108 && lower[4] == 117 && lower[5] == 100 && lower[6] == 101 {
            proof {
                assert(lv =~= seq![105u8, 110u8, 99u8, 108u8, 117u8, 100u8, 101u8]);
                assert(lv != seq![111u8, 114u8, 105u8, 103u8, 105u8, 110u8]);
                assert(lv != seq![116u8, 116u8, 108u8]);
            }
            Some(Keyword::Include)
        } else if lower.len() == 8 && lower[0] == 103 && lower[1] == 101 && lower[2] == 110
            && lower[3] == 101 && lower[4] == 114 && lower[5] == 97 && lower[6] == 116 && lower[7]
            == 101 {
            proof {
                assert(lv =~= seq![103u8, 101u8, 110u8, 101u8, 114u8, 97u8, 116u8, 101u8]);
                assert(lv != seq![111u8, 114u8, 105u8, 103u8, 105u8, 110u8]);
                assert(lv != seq![116u8, 116u8, 108u8]);
                assert(lv != seq![105u8, 110u8, 99u8, 108u8, 117u8, 100u8, 101u8]);
            }
            Some(Keyword::Generate)
        } else {
            proof {
                lemma_neq_lits(lv, lower@);
            }
            None
        }
    }
}

/// The candidate literals all differ from a sequence that fails every
/// elementwise comparison.
proof fn lemma_neq_lits(lv: Seq<u8>, lower: Seq<u8>)
    requires
        lv == lower,
        lower != seq![111u8, 114u8, 105u8, 103u8, 105u8, 110u8],
        !(lower.len() == 3 && lower[0] == 116 && lower[1] == 116 && lower[2] == 108),
        !(lower.len() == 7 && lower[0] == 105 && lower[1] == 110 && lower[2] == 99 && lower[3]
            == 108 && lower[4] == 117 && lower[5] == 100 && lower[6] == 101),
        !(lower.len() == 8 && lower[0] == 103 && lower[1] == 101 && lower[2] == 110 && lower[3]
            == 101 && lower[4] == 114 && lower[5] == 97 && lower[6] == 116 && lower[7] == 101),
    ensures
        lv != seq![111u8, 114u8, 105u8, 103u8, 105u8, 110u8],
        lv != seq![116u8, 116u8, 108u8],
        lv != seq![105u8, 110u8, 99u8, 108u8, 117u8, 100u8, 101u8],
        lv != seq![103u8, 101u8, 110u8, 101u8, 114u8, 97u8, 116u8, 101u8],
{
    if lv == seq![116u8, 116u8, 108u8] {
        assert(lower.len() == 3 && lower[0] == 116 && lower[1] == 116 && lower[2] == 108);
    }
    if lv == seq![105u8, 110u8, 99u8, 108u8, 117u8, 100u8, 101u8] {
        assert(lower.len() == 7 && lower[0] == 105 && lower[1] == 110 && lower[2] == 99 && lower[3]
            == 108 && lower[4] == 117 && lower[5] == 100 && lower[6] == 101);
    }
    if lv == seq![103u8, 101u8, 110u8, 101u8, 114u8, 97u8, 116u8, 101u8] {
        assert(lower.len() == 8 && lower[0] == 103 && lower[1] == 101 && lower[2] == 110 && lower[3]
            == 101 && lower[4] == 114 && lower[5] == 97 && lower[6] == 116 && lower[7] == 101);
    }
}

/// Compares a byte string with a six-byte literal.
fn eq_lit6(v: &Vec<u8>, a: u8, b: u8, c: u8, d: u8, e: u8, f: u8) -> (r: bool)
    ensures
        r == (v@ == seq![a, b, c, d, e, f]),
{
    let hit = v.len() == 6 && v[0] == a && v[1] == b && v[2] == c && v[3] == d && v[4] == e && v[5]
        == f;
    proof {
        if hit {
            assert(v@ =~= seq![a, b, c, d, e, f]);
        }
    }
    hit
}

/// The kinds of token the master-file scanner emits.
#[derive(Copy, Clone, Eq, PartialEq, Structural, Debug)]
pub enum TokenType {
    DolorSign,
    SemiColon,
    LeftParenthesis,
    RightParenthesis,
    AtSign,
    Text,
    WhiteSpace,
    EOL,
}

/// One scanned token: its kind, its raw bytes and its line.
#[derive(Debug)]
pub struct Token {
    pub token_type: TokenType,
    pub lexeme: Vec<u8>,
    pub line: u16,
}

/// The mathematical shape of a token.
pub struct TokenView {
    pub token_type: TokenType,
    pub lexeme: Seq<u8>,
    pub line: u16,
}

impl View for Token {
    type V = TokenView;

    open spec fn view(&self) -> TokenView {
        TokenView { token_type: self.token_type, lexeme: self.lexeme@, line: self.line }
    }
}

impl Token {
    pub fn new(lexeme: &[u8], token_type: TokenType, line: u16) -> (r: Token)
        ensures
            r@.token_type == token_type,
            r@.lexeme == lexeme@,
            r@.line == line,
    {
        let mut bytes: Vec<u8> = Vec::new();
        let mut i: usize = 0;
        while i < lexeme.len()
            invariant
                0 <= i <= lexeme@.len(),
                bytes@ == lexeme@.subrange(0, i as int),
            decreases lexeme@.len() - i,
        {
            bytes.push(lexeme[i]);
            proof {
                assert(bytes@ =~= lexeme@.subrange(0, i as int + 1));
            }
            i = i + 1;
        }
        proof {
            assert(bytes@ =~= lexeme@);
        }
        Token { token_type, lexeme: bytes, line }
    }
}

impl Clone for Token {
    fn clone(&self) -> (r: Self)
        ensures
            r@ == self@,
    {
        Token {
            token_type: self.token_type,
            lexeme: crate::record::clone_bytes(&self.lexeme),
            line: self.line,
        }
    }
}

} // verus!
