//! The values that a parse produces, and the instance they belong to.
use crate::text::{digits_value, first_where, is_first_where, is_u64_text, lemma_first_where, parse_u64};
use vstd::prelude::*;

verus! {

/// Why a response could not be turned into records.
#[derive(Clone, Copy, Debug, PartialEq, Eq, Structural)]
pub enum ParseError {
    /// The text is too short to hold the fixed wrapper.
    MalformedEnvelope,
    /// A token of the reference run is not a number.
    InvalidReference,
    /// A reference points past the end of the literal pool.
    IndexOutOfRange,
    /// The marker of the submission table is absent.
    SentinelNotFound,
    /// A status column holds text outside the known outcomes.
    UnknownStatus,
    /// A points, acceptance or size column is not a number.
    InvalidNumber,
}

/// The outcome of one grading attempt.
#[derive(Clone, Copy, Debug, PartialEq, Eq, Structural)]
pub enum SubmitStatus {
    Accepted,
    CompileError,
    WrongAnswer,
    TimeExceeded,
    RuntimeError,
}

/// A decimal number `whole.fraction`, where `fraction` was written with `scale` digits.
#[derive(Clone, Copy, Debug, PartialEq, Eq, Structural)]
pub struct Points {
    pub whole: u64,
    pub fraction: u64,
    pub scale: usize,
}

/// The status a column text stands for, as the platform writes it on the wire.
pub open spec fn status_of(t: Seq<char>) -> Option<SubmitStatus> {
    if t == "program zaakceptowany"@ {
        Some(SubmitStatus::Accepted)
    } else if t == "b\u{139}\\x82\u{c4}\\x85d kompilacji"@ {
        Some(SubmitStatus::CompileError)
    } else if t == "z\u{139}\\x82a odpowiedz"@ {
        Some(SubmitStatus::WrongAnswer)
    } else if t == "przekroczony czas"@ {
        Some(SubmitStatus::TimeExceeded)
    } else if t == "b\u{139}\\x82\u{c4}\\x85d wykonania"@ {
        Some(SubmitStatus::RuntimeError)
    } else {
        None
    }
}

fn same_text(a: &str, b: &str) -> (r: bool)
    ensures
        r == (a@ == b@),
{
    String::from_str(a) == String::from_str(b)
}

impl SubmitStatus {
    /// The status that `t` names; `None` for any other text.
    pub fn from_text(t: &str) -> (r: Option<SubmitStatus>)
        ensures
            r == status_of(t@),
    {
        if same_text(t, "program zaakceptowany") {
            Some(SubmitStatus::Accepted)
        } else if same_text(t, "b\u{139}\\x82\u{c4}\\x85d kompilacji") {
            Some(SubmitStatus::CompileError)
        } else if same_text(t, "z\u{139}\\x82a odpowiedz") {
            Some(SubmitStatus::WrongAnswer)
        } else if same_text(t, "przekroczony czas") {
            Some(SubmitStatus::TimeExceeded)
        } else if same_text(t, "b\u{139}\\x82\u{c4}\\x85d wykonania") {
            Some(SubmitStatus::RuntimeError)
        } else {
            None
        }
    }
}

pub open spec fn is_dot(c: char) -> bool {
    c == '.'
}

/// The decimal that `t` spells: digits, optionally followed by a dot and more digits.
pub open spec fn decimal_of(t: Seq<char>) -> Option<Points> {
    let p = first_where(t, |c: char| is_dot(c));
    if p == t.len() {
        if is_u64_text(t) {
            Some(Points { whole: digits_value(t) as u64, fraction: 0, scale: 0 })
        } else {
            None
        }
    } else {
        let a = t.take(p);
        let b = t.skip(p + 1);
        if is_u64_text(a) && is_u64_text(b) {
            Some(Points { whole: digits_value(a) as u64, fraction: digits_value(b) as u64, scale: b.len() as usize })
        } else {
            None
        }
    }
}

impl Points {
    /// Reads a decimal such as `4.00`; `None` where `t` is no such number.
    pub fn from_text(t: &str) -> (r: Option<Points>)
        ensures
            r == decimal_of(t@),
    {
        let n = t.unicode_len();
        let mut p: usize = 0;
        while p < n && t.get_char(p) != '.'
            invariant
                p <= n,
                n == t@.len(),
                forall|j: int| 0 <= j < p ==> !is_dot(#[trigger] t@[j]),
            decreases n - p,
        {
            p = p + 1;
        }
        proof {
            assert(is_first_where(t@, |c: char| is_dot(c), p as int));
            lemma_first_where(t@, |c: char| is_dot(c), p as int);
        }
        if p == n {
            let whole = parse_u64(t)?;
            return Some(Points { whole, fraction: 0, scale: 0 });
        }
        let a = t.substring_char(0, p);
        let b = t.substring_char(p + 1, n);
        assert(a@ =~= t@.take(p as int));
        assert(b@ =~= t@.skip(p + 1));
        let whole = parse_u64(a)?;
        let fraction = parse_u64(b)?;
        Some(Points { whole, fraction, scale: n - p - 1 })
    }
}

/// One grading attempt.
#[derive(Clone, Debug, PartialEq)]
pub struct Submit {
    pub status: SubmitStatus,
    pub points: Points,
    pub lateness: Option<Points>,
    pub accepted: u64,
    pub size: u64,
    pub timestamp: String,
    pub language: String,
    pub id: String,
    pub max_points: Option<Points>,
    pub problem_name: String,
    pub link: String,
}

/// What a `Submit` holds, with its texts as character sequences.
pub struct SubmitModel {
    pub status: SubmitStatus,
    pub points: Points,
    pub lateness: Option<Points>,
    pub accepted: u64,
    pub size: u64,
    pub timestamp: Seq<char>,
    pub language: Seq<char>,
    pub id: Seq<char>,
    pub max_points: Option<Points>,
    pub problem_name: Seq<char>,
    pub link: Seq<char>,
}

impl View for Submit {
    type V = SubmitModel;

    open spec fn view(&self) -> SubmitModel {
        SubmitModel {
            status: self.status,
            points: self.points,
            lateness: self.lateness,
            accepted: self.accepted,
            size: self.size,
            timestamp: self.timestamp@,
            language: self.language@,
            id: self.id@,
            max_points: self.max_points,
            problem_name: self.problem_name@,
            link: self.link@,
        }
    }
}

/// The records of one response, in the order the response yields them.
#[derive(Clone, Debug, PartialEq)]
pub struct Results {
    pub submits: Vec<Submit>,
}

impl View for Results {
    type V = Seq<SubmitModel>;

    open spec fn view(&self) -> Seq<SubmitModel> {
        self.submits@.map_values(|s: Submit| s@)
    }
}

/// The platform instance that a response came from.
#[derive(Clone, Debug, PartialEq)]
pub struct InstanceData {
    pub host: String,
    pub login: String,
    pub password: String,
    pub permutation: String,
    pub cookie: String,
}

pub open spec fn url_root() -> Seq<char> {
    "https://baca.ii.uj.edu.pl/"@
}

pub open spec fn instance_url(host: Seq<char>) -> Seq<char> {
    url_root() + host
}

impl InstanceData {
    /// The root URL of the instance: the platform's address followed by the host name.
    pub fn make_url(&self) -> (r: String)
        ensures
            r@ == instance_url(self.host@),
    {
        let root = String::from_str("https://baca.ii.uj.edu.pl/");
        root.concat(self.host.as_str())
    }
}

} // verus!
