//! The fields of an entry that a filter or a grouping can be aimed at.

use crate::text::{chars_of, same_chars};
use vstd::prelude::*;

verus! {

/// A field of a log entry, as a filter or a grouping names it.
#[derive(Clone, Copy, Debug, PartialEq, Eq, Hash, Structural)]
pub enum LogParameter {
    Time,
    Agent,
    ClientIp,
    Status,
    Method,
    Schema,
    Request,
    Referrer,
    Date,
}

impl Default for LogParameter {
    fn default() -> (r: Self)
        ensures
            r == LogParameter::Request,
    {
        LogParameter::Request
    }
}

impl LogParameter {
    /// Every parameter once, in the order in which they are offered.
    pub open spec fn variants() -> Seq<LogParameter> {
        seq![
            LogParameter::Time,
            LogParameter::Date,
            LogParameter::Agent,
            LogParameter::ClientIp,
            LogParameter::Status,
            LogParameter::Method,
            LogParameter::Schema,
            LogParameter::Request,
            LogParameter::Referrer,
        ]
    }

    /// The short word by which the parameter is chosen on a command line.
    pub open spec fn token_text(self) -> Seq<char> {
        match self {
            LogParameter::Time => "time"@,
            LogParameter::Date => "date"@,
            LogParameter::Agent => "agent"@,
            LogParameter::ClientIp => "client"@,
            LogParameter::Status => "status"@,
            LogParameter::Method => "method"@,
            LogParameter::Schema => "schema"@,
            LogParameter::Request => "req"@,
            LogParameter::Referrer => "ref"@,
        }
    }

    /// The words that head a column of this parameter's values.
    pub open spec fn display_text(self) -> Seq<char> {
        match self {
            LogParameter::Time => "Time"@,
            LogParameter::Date => "Date"@,
            LogParameter::Agent => "User agent"@,
            LogParameter::ClientIp => "Client IP"@,
            LogParameter::Status => "HTTP Status"@,
            LogParameter::Method => "HTTP Method"@,
            LogParameter::Schema => "Schema"@,
            LogParameter::Request => "Request URI"@,
            LogParameter::Referrer => "Referrer"@,
        }
    }

    /// The parameter that `token` chooses, if it is the token of one.
    pub open spec fn chosen_by(token: Seq<char>) -> Option<LogParameter> {
        if exists|p: LogParameter| p.token_text() == token {
            Some(choose|p: LogParameter| p.token_text() == token)
        } else {
            None
        }
    }

    /// Every parameter once, in the order in which they are offered.
    pub fn value_variants() -> (r: Vec<LogParameter>)
        ensures
            r@ == Self::variants(),
    {
        let r = vec![
            LogParameter::Time,
            LogParameter::Date,
            LogParameter::Agent,
            LogParameter::ClientIp,
            LogParameter::Status,
            LogParameter::Method,
            LogParameter::Schema,
            LogParameter::Request,
            LogParameter::Referrer,
        ];
        r
    }

    /// The short word by which the parameter is chosen on a command line.
    pub fn token(&self) -> (r: &'static str)
        ensures
            r@ == self.token_text(),
    {
        match self {
            LogParameter::Time => "time",
            LogParameter::Date => "date",
            LogParameter::Agent => "agent",
            LogParameter::ClientIp => "client",
            LogParameter::Status => "status",
            LogParameter::Method => "method",
            LogParameter::Schema => "schema",
            LogParameter::Request => "req",
            LogParameter::Referrer => "ref",
        }
    }

    /// The words that head a column of this parameter's values.
    pub fn display_name(&self) -> (r: &'static str)
        ensures
            r@ == self.display_text(),
    {
        match self {
            LogParameter::Time => "Time",
            LogParameter::Date => "Date",
            LogParameter::Agent => "User agent",
            LogParameter::ClientIp => "Client IP",
            LogParameter::Status => "HTTP Status",
            LogParameter::Method => "HTTP Method",
            LogParameter::Schema => "Schema",
            LogParameter::Request => "Request URI",
            LogParameter::Referrer => "Referrer",
        }
    }

    /// The parameter that `token` chooses. The token is taken letter for
    /// letter: capitals or blanks around it make it another word.
    pub fn from_token(token: &str) -> (r: Option<LogParameter>)
        ensures
            r == Self::chosen_by(token@),
    {
        let wanted = chars_of(token);
        let all = Self::value_variants();
        let mut i: usize = 0;
        while i < all.len()
            invariant
                i <= all.len(),
                all@ == Self::variants(),
                wanted@ == token@,
                forall|k: int| 0 <= k < i ==> (#[trigger] all@[k]).token_text() != token@,
            decreases all.len() - i,
        {
            let p = all[i];
            let word = chars_of(p.token());
            if same_chars(&word, &wanted) {
                proof {
                    lemma_tokens_differ(p, choose|q: LogParameter| q.token_text() == token@);
                }
                return Some(p);
            }
            i += 1;
        }
        assert forall|p: LogParameter| p.token_text() != token@ by {
            lemma_variants_complete(p);
        }
        None
    }
}

/// Every parameter stands among the variants.
pub proof fn lemma_variants_complete(p: LogParameter)
    ensures
        exists|k: int| 0 <= k < 9 && LogParameter::variants()[k] == p,
{
    let v = LogParameter::variants();
    match p {
        LogParameter::Time => assert(v[0] == p),
        LogParameter::Date => assert(v[1] == p),
        LogParameter::Agent => assert(v[2] == p),
        LogParameter::ClientIp => assert(v[3] == p),
        LogParameter::Status => assert(v[4] == p),
        LogParameter::Method => assert(v[5] == p),
        LogParameter::Schema => assert(v[6] == p),
        LogParameter::Request => assert(v[7] == p),
        LogParameter::Referrer => assert(v[8] == p),
    }
}

/// No two parameters share a token.
pub proof fn lemma_tokens_differ(p: LogParameter, q: LogParameter)
    requires
        p.token_text() == q.token_text(),
    ensures
        p == q,
{
    reveal_strlit("time");
    reveal_strlit("date");
    reveal_strlit("agent");
    reveal_strlit("client");
    reveal_strlit("status");
    reveal_strlit("method");
    reveal_strlit("schema");
    reveal_strlit("req");
    reveal_strlit("ref");
    let a = p.token_text();
    let b = q.token_text();
    assert(a.len() == b.len());
    assert(a[0] == b[0]);
    assert(a[2] == b[2]);
}

/// Token and parameter determine each other: the token of a parameter
/// chooses that parameter, and a token that chooses one is its token.
pub proof fn lemma_token_round_trip(p: LogParameter, token: Seq<char>)
    ensures
        LogParameter::chosen_by(p.token_text()) == Some(p),
        LogParameter::chosen_by(token) == Some(p) ==> token == p.token_text(),
{
    let q = choose|q: LogParameter| q.token_text() == p.token_text();
    lemma_tokens_differ(p, q);
}

} // verus!
