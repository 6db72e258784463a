//! The pipeline from a raw response to submission records: strip the wrapper,
//! split into tokens, resolve the references, cut the records out.
use crate::model::{decimal_of, instance_url, status_of, InstanceData, ParseError, Points, Results, Submit, SubmitModel, SubmitStatus};
use crate::text::{
    all_digits, digits_value, first_where, has_substring, is_digits, is_first_where, is_u64_text,
    lemma_first_where, occurs_in, parse_u64,
};
use vstd::prelude::*;

verus! {

/// Tokens from the table marker on that are skipped: the marker and the column labels.
pub const HEADER_LEN: usize = 10;

/// Tokens per submission record.
pub const RECORD_WIDTH: usize = 10;

/// Characters of the status prefix in front of the payload.
pub const PREFIX_LEN: usize = 5;

/// Characters of the trailing flags behind the payload.
pub const SUFFIX_LEN: usize = 8;

pub open spec fn views(v: Seq<String>) -> Seq<Seq<char>> {
    v.map_values(|t: String| t@)
}

pub open spec fn result_views(r: Result<Vec<String>, ParseError>) -> Result<Seq<Seq<char>>, ParseError> {
    match r {
        Ok(v) => Ok(views(v@)),
        Err(e) => Err(e),
    }
}

/// The payload inside the wrapper.
pub open spec fn interior(d: Seq<char>) -> Result<Seq<char>, ParseError> {
    if d.len() < PREFIX_LEN + SUFFIX_LEN {
        Err(ParseError::MalformedEnvelope)
    } else {
        Ok(d.subrange(PREFIX_LEN as int, d.len() - SUFFIX_LEN))
    }
}

/// The pieces between commas, empty ones included.
pub open spec fn split_commas(s: Seq<char>) -> Seq<Seq<char>>
    decreases s.len(),
{
    if s.len() == 0 {
        seq![Seq::empty()]
    } else {
        let t = split_commas(s.drop_last());
        if s.last() == ',' {
            t.push(Seq::empty())
        } else {
            t.update(t.len() - 1, t.last().push(s.last()))
        }
    }
}

pub open spec fn not_numeric(t: Seq<char>) -> bool {
    !all_digits(t)
}

/// The length of the leading run of all-digit tokens.
pub open spec fn ref_run_len(toks: Seq<Seq<char>>) -> int {
    first_where(toks, |t: Seq<char>| not_numeric(t))
}

/// Removes one leading and one trailing double quote, where present.
pub open spec fn unquote(s: Seq<char>) -> Seq<char> {
    let a = if s.len() > 0 && s[0] == '"' {
        s.drop_first()
    } else {
        s
    };
    if a.len() > 0 && a.last() == '"' {
        a.drop_last()
    } else {
        a
    }
}

/// Resolves each reference, in order, to the unquoted literal it points at; a zero is skipped.
pub open spec fn resolve(keys: Seq<Seq<char>>, pool: Seq<Seq<char>>) -> Result<Seq<Seq<char>>, ParseError>
    decreases keys.len(),
{
    if keys.len() == 0 {
        Ok(Seq::empty())
    } else {
        match resolve(keys.drop_last(), pool) {
            Err(e) => Err(e),
            Ok(r) => {
                let k = keys.last();
                let v = digits_value(k);
                if !is_u64_text(k) {
                    Err(ParseError::InvalidReference)
                } else if v == 0 {
                    Ok(r)
                } else if v > pool.len() {
                    Err(ParseError::IndexOutOfRange)
                } else {
                    Ok(r.push(unquote(pool[v - 1])))
                }
            },
        }
    }
}

/// The resolved sequence of a whole response.
pub open spec fn deserialized(d: Seq<char>) -> Result<Seq<Seq<char>>, ParseError> {
    match interior(d) {
        Err(e) => Err(e),
        Ok(s) => {
            let toks = split_commas(s);
            let k = ref_run_len(toks);
            resolve(toks.take(k), toks.skip(k))
        },
    }
}

/// The type descriptor that opens the submission table.
pub open spec fn table_marker() -> Seq<char> {
    "Ljava.lang.String;/2600011424"@
}

pub open spec fn is_table_marker(t: Seq<char>) -> bool {
    occurs_in(t, table_marker())
}

/// The position of the first token that holds the table marker, or the length where none does.
pub open spec fn marker_pos(res: Seq<Seq<char>>) -> int {
    first_where(res, |t: Seq<char>| is_table_marker(t))
}

/// What follows the header block that starts at the marker at `j`.
pub open spec fn table_body(res: Seq<Seq<char>>, j: int) -> Seq<Seq<char>> {
    let start = if j + HEADER_LEN <= res.len() {
        j + HEADER_LEN
    } else {
        res.len() as int
    };
    res.subrange(start, res.len() as int)
}

/// How many groups of `RECORD_WIDTH` tokens `l` tokens make, the last one possibly short.
pub open spec fn group_count(l: int) -> int {
    (l + RECORD_WIDTH - 1) / (RECORD_WIDTH as int)
}

/// The groups that become records: all but the last group.
pub open spec fn record_count(l: int) -> int {
    if l == 0 {
        0
    } else {
        group_count(l) - 1
    }
}

/// The `q`th group of the body.
pub open spec fn group(body: Seq<Seq<char>>, q: int) -> Seq<Seq<char>> {
    body.subrange(q * RECORD_WIDTH, q * RECORD_WIDTH + RECORD_WIDTH)
}

/// The group that the `m`th record is read from: records run from the last full group back.
pub open spec fn group_of_record(l: int, m: int) -> int {
    group_count(l) - 2 - m
}

/// The record that a full group of tokens describes.
pub open spec fn record_of(url: Seq<char>, g: Seq<Seq<char>>) -> Result<SubmitModel, ParseError> {
    match status_of(g[1]) {
        None => Err(ParseError::UnknownStatus),
        Some(status) => match decimal_of(g[2]) {
            None => Err(ParseError::InvalidNumber),
            Some(points) => if !is_u64_text(g[3]) || !is_u64_text(g[4]) {
                Err(ParseError::InvalidNumber)
            } else {
                Ok(
                    SubmitModel {
                        status,
                        points,
                        lateness: None,
                        accepted: digits_value(g[3]) as u64,
                        size: digits_value(g[4]) as u64,
                        timestamp: g[5],
                        language: g[6],
                        id: g[8],
                        max_points: None,
                        problem_name: g[7],
                        link: url + "/#SubmitDetails/"@ + g[8],
                    },
                )
            },
        },
    }
}

/// The first `m` records of the body, or the first failure among them.
pub open spec fn build_records(url: Seq<char>, body: Seq<Seq<char>>, m: int) -> Result<Seq<SubmitModel>, ParseError>
    decreases m,
{
    if m <= 0 {
        Ok(Seq::empty())
    } else {
        match build_records(url, body, m - 1) {
            Err(e) => Err(e),
            Ok(s) => match record_of(url, group(body, group_of_record(body.len() as int, m - 1))) {
                Err(e) => Err(e),
                Ok(x) => Ok(s.push(x)),
            },
        }
    }
}

/// The records of a resolved sequence.
pub open spec fn records(url: Seq<char>, res: Seq<Seq<char>>) -> Result<Seq<SubmitModel>, ParseError> {
    let j = marker_pos(res);
    if j == res.len() {
        Err(ParseError::SentinelNotFound)
    } else {
        let body = table_body(res, j);
        build_records(url, body, record_count(body.len() as int))
    }
}

/// The records of a whole response from the instance on `host`.
pub open spec fn parsed(host: Seq<char>, d: Seq<char>) -> Result<Seq<SubmitModel>, ParseError> {
    match deserialized(d) {
        Err(e) => Err(e),
        Ok(res) => records(instance_url(host), res),
    }
}

pub open spec fn models(s: Seq<Submit>) -> Seq<SubmitModel> {
    s.map_values(|x: Submit| x@)
}

proof fn lemma_build_failed_prefix(url: Seq<char>, body: Seq<Seq<char>>, m: int, n: int)
    requires
        0 <= m <= n,
        build_records(url, body, m) is Err,
    ensures
        build_records(url, body, n) == build_records(url, body, m),
    decreases n,
{
    if m < n {
        lemma_build_failed_prefix(url, body, m, n - 1);
    }
}

proof fn lemma_resolve_failed_prefix(keys: Seq<Seq<char>>, pool: Seq<Seq<char>>, i: int)
    requires
        0 <= i <= keys.len(),
        resolve(keys.take(i), pool) is Err,
    ensures
        resolve(keys, pool) == resolve(keys.take(i), pool),
    decreases keys.len(),
{
    if i == keys.len() {
        assert(keys.take(i) =~= keys);
    } else {
        assert(keys.drop_last().take(i) =~= keys.take(i));
        lemma_resolve_failed_prefix(keys.drop_last(), pool, i);
    }
}

pub proof fn lemma_split_nonempty(s: Seq<char>)
    ensures
        split_commas(s).len() >= 1,
    decreases s.len(),
{
    if s.len() > 0 {
        lemma_split_nonempty(s.drop_last());
    }
}

/// Removes one leading and one trailing double quote, where present.
pub fn unquoted(s: &str) -> (r: String)
    ensures
        r@ == unquote(s@),
{
    let n = s.unicode_len();
    let lo: usize = if n > 0 && s.get_char(0) == '"' {
        1
    } else {
        0
    };
    let hi: usize = if n > lo && s.get_char(n - 1) == '"' {
        n - 1
    } else {
        n
    };
    let r = owned(s.substring_char(lo, hi));
    proof {
        let a = if s@.len() > 0 && s@[0] == '"' {
            s@.drop_first()
        } else {
            s@
        };
        assert(a =~= s@.subrange(lo as int, n as int));
        if hi < n {
            assert(a.drop_last() =~= s@.subrange(lo as int, hi as int));
        }
        assert(r@ =~= unquote(s@));
    }
    r
}

fn owned(s: &str) -> (r: String)
    ensures
        r@ == s@,
{
    String::from_str(s)
}

impl Results {
    /// The text between the status prefix and the trailing flags.
    pub fn remove_outer_layer(data: &str) -> (r: Result<String, ParseError>)
        ensures
            match r {
                Ok(s) => interior(data@) == Ok::<Seq<char>, ParseError>(s@),
                Err(e) => interior(data@) == Err::<Seq<char>, ParseError>(e),
            },
    {
        let n = data.unicode_len();
        if n < PREFIX_LEN + SUFFIX_LEN {
            return Err(ParseError::MalformedEnvelope);
        }
        Ok(owned(data.substring_char(PREFIX_LEN, n - SUFFIX_LEN)))
    }

    /// Splits on every comma, keeping empty pieces.
    pub fn split_raw(data: &str) -> (r: Vec<String>)
        ensures
            views(r@) == split_commas(data@),
    {
        let n = data.unicode_len();
        let mut toks: Vec<String> = Vec::new();
        let mut start: usize = 0;
        let mut i: usize = 0;
        assert(views(toks@).push(data@.subrange(0, 0)) =~~= split_commas(data@.subrange(0, 0)));
        while i < n
            invariant
                start <= i <= n,
                n == data@.len(),
                views(toks@).push(data@.subrange(start as int, i as int)) == split_commas(
                    data@.subrange(0, i as int),
                ),
            decreases n - i,
        {
            let c = data.get_char(i);
            let ghost before = views(toks@);
            assert(data@.subrange(0, i + 1).drop_last() =~~= data@.subrange(0, i as int));
            if c == ',' {
                let t = owned(data.substring_char(start, i));
                toks.push(t);
                assert(views(toks@) =~~= before.push(data@.subrange(start as int, i as int)));
                assert(views(toks@).push(data@.subrange(i + 1, i + 1)) =~~= before.push(
                    data@.subrange(start as int, i as int),
                ).push(Seq::empty()));
                start = i + 1;
            } else {
                assert(data@.subrange(start as int, i + 1) =~~= data@.subrange(
                    start as int,
                    i as int,
                ).push(c));
                assert(before.push(data@.subrange(start as int, i as int)).update(
                    before.len() as int,
                    data@.subrange(start as int, i + 1),
                ) =~~= before.push(data@.subrange(start as int, i + 1)));
            }
            i = i + 1;
        }
        let ghost before = views(toks@);
        let t = owned(data.substring_char(start, n));
        toks.push(t);
        assert(views(toks@) =~~= before.push(data@.subrange(start as int, n as int)));
        assert(data@.subrange(0, n as int) =~~= data@);
        toks
    }

    /// The leading run of tokens made of digits only: the references.
    pub fn get_keys(data: &[String]) -> (r: Vec<String>)
        ensures
            0 <= ref_run_len(views(data@)) <= data@.len(),
            views(r@) == views(data@).take(ref_run_len(views(data@))),
    {
        let ghost toks = views(data@);
        let mut keys: Vec<String> = Vec::new();
        let mut i: usize = 0;
        while i < data.len() && is_digits(data[i].as_str())
            invariant
                i <= data@.len(),
                toks == views(data@),
                forall|j: int| 0 <= j < i ==> !not_numeric(#[trigger] toks[j]),
                views(keys@) == toks.take(i as int),
            decreases data@.len() - i,
        {
            let ghost before = views(keys@);
            let t = data[i].clone();
            assert(t@ == toks[i as int]);
            keys.push(t);
            assert(views(keys@) =~~= before.push(t@));
            assert(views(keys@) =~~= toks.take(i + 1));
            i = i + 1;
        }
        proof {
            assert(is_first_where(toks, |t: Seq<char>| not_numeric(t), i as int));
            lemma_first_where(toks, |t: Seq<char>| not_numeric(t), i as int);
        }
        keys
    }

    /// The tokens behind the references: the literal pool.
    pub fn get_values(data: &[String], keys_len: usize) -> (r: Vec<String>)
        requires
            keys_len <= data@.len(),
        ensures
            views(r@) == views(data@).skip(keys_len as int),
    {
        let mut values: Vec<String> = Vec::new();
        let mut i: usize = keys_len;
        while i < data.len()
            invariant
                keys_len <= i <= data@.len(),
                views(values@) == views(data@).subrange(keys_len as int, i as int),
            decreases data@.len() - i,
        {
            let ghost before = views(values@);
            let t = data[i].clone();
            assert(t@ == views(data@)[i as int]);
            values.push(t);
            assert(views(values@) =~~= before.push(t@));
            assert(views(values@) =~~= views(data@).subrange(keys_len as int, i + 1));
            i = i + 1;
        }
        assert(views(data@).subrange(keys_len as int, i as int) =~~= views(data@).skip(keys_len as int));
        values
    }

    /// Resolves each reference to its unquoted literal, skipping zeros.
    pub fn map_serialized(keys: &[String], values: &[String]) -> (r: Result<Vec<String>, ParseError>)
        ensures
            result_views(r) == resolve(views(keys@), views(values@)),
    {
        let ghost ks = views(keys@);
        let ghost pool = views(values@);
        let mut out: Vec<String> = Vec::new();
        let mut i: usize = 0;
        assert(ks.take(0) =~~= Seq::<Seq<char>>::empty());
        assert(views(out@) =~~= Seq::<Seq<char>>::empty());
        while i < keys.len()
            invariant
                i <= keys@.len(),
                ks == views(keys@),
                pool == views(values@),
                resolve(ks.take(i as int), pool) == Ok::<Seq<Seq<char>>, ParseError>(views(out@)),
            decreases keys@.len() - i,
        {
            assert(ks.take(i + 1).drop_last() =~~= ks.take(i as int));
            assert(ks.take(i + 1).last() == keys@[i as int]@);
            let v = match parse_u64(keys[i].as_str()) {
                Some(v) => v,
                None => {
                    proof {
                        lemma_resolve_failed_prefix(ks, pool, i + 1);
                    }
                    return Err(ParseError::InvalidReference);
                },
            };
            if v != 0 {
                if v > values.len() as u64 {
                    proof {
                        lemma_resolve_failed_prefix(ks, pool, i + 1);
                    }
                    return Err(ParseError::IndexOutOfRange);
                }
                let ghost before = views(out@);
                let t = unquoted(values[(v - 1) as usize].as_str());
                out.push(t);
                assert(views(out@) =~~= before.push(t@));
            }
            i = i + 1;
        }
        assert(ks.take(i as int) =~~= ks);
        Ok(out)
    }

    /// Strips the wrapper, splits the payload and resolves its references.
    pub fn deserialize(data: &str) -> (r: Result<Vec<String>, ParseError>)
        ensures
            result_views(r) == deserialized(data@),
    {
        let data = Self::remove_outer_layer(data)?;
        let data = Self::split_raw(data.as_str());
        let keys = Self::get_keys(data.as_slice());
        let values = Self::get_values(data.as_slice(), keys.len());
        proof {
            let toks = views(data@);
            let k = ref_run_len(toks);
            assert(views(keys@).len() == k);
        }
        Self::map_serialized(keys.as_slice(), values.as_slice())
    }

    /// The record held by the `RECORD_WIDTH` tokens from `at` on.
    pub fn make_submit(url: &String, toks: &[String], at: usize) -> (r: Result<Submit, ParseError>)
        requires
            at + RECORD_WIDTH <= toks@.len(),
        ensures
            match r {
                Ok(s) => record_of(url@, views(toks@).subrange(at as int, at + RECORD_WIDTH))
                    == Ok::<SubmitModel, ParseError>(s@),
                Err(e) => record_of(url@, views(toks@).subrange(at as int, at + RECORD_WIDTH))
                    == Err::<SubmitModel, ParseError>(e),
            },
    {
        let n = toks.len();
        let ghost g = views(toks@).subrange(at as int, at + RECORD_WIDTH);
        assert(forall|c: int| 0 <= c < RECORD_WIDTH ==> #[trigger] g[c] == toks@[at + c]@);
        let status = match SubmitStatus::from_text(toks[at + 1].as_str()) {
            Some(s) => s,
            None => {
                return Err(ParseError::UnknownStatus);
            },
        };
        let points = match Points::from_text(toks[at + 2].as_str()) {
            Some(p) => p,
            None => {
                return Err(ParseError::InvalidNumber);
            },
        };
        let accepted = match parse_u64(toks[at + 3].as_str()) {
            Some(v) => v,
            None => {
                return Err(ParseError::InvalidNumber);
            },
        };
        let size = match parse_u64(toks[at + 4].as_str()) {
            Some(v) => v,
            None => {
                return Err(ParseError::InvalidNumber);
            },
        };
        let link = url.clone().concat("/#SubmitDetails/").concat(toks[at + 8].as_str());
        Ok(
            Submit {
                status,
                points,
                lateness: None,
                accepted,
                size,
                timestamp: toks[at + 5].clone(),
                language: toks[at + 6].clone(),
                id: toks[at + 8].clone(),
                max_points: None,
                problem_name: toks[at + 7].clone(),
                link,
            },
        )
    }

    /// Turns a raw response from `instance` into its submission records.
    pub fn parse(instance: &InstanceData, data: &str) -> (r: Result<Results, ParseError>)
        ensures
            match r {
                Ok(x) => parsed(instance.host@, data@) == Ok::<Seq<SubmitModel>, ParseError>(x@),
                Err(e) => parsed(instance.host@, data@) == Err::<Seq<SubmitModel>, ParseError>(e),
            },
    {
        let resolved = Self::deserialize(data)?;
        let ghost res = views(resolved@);
        let mut j: usize = 0;
        while j < resolved.len() && !has_substring(resolved[j].as_str(), "Ljava.lang.String;/2600011424")
            invariant
                j <= resolved@.len(),
                res == views(resolved@),
                forall|k: int| 0 <= k < j ==> !is_table_marker(#[trigger] res[k]),
            decreases resolved@.len() - j,
        {
            j = j + 1;
        }
        proof {
            assert(is_first_where(res, |t: Seq<char>| is_table_marker(t), j as int));
            lemma_first_where(res, |t: Seq<char>| is_table_marker(t), j as int);
        }
        if j == resolved.len() {
            return Err(ParseError::SentinelNotFound);
        }
        let n = resolved.len();
        let base: usize = if resolved.len() - j >= HEADER_LEN {
            j + HEADER_LEN
        } else {
            resolved.len()
        };
        let ghost body = table_body(res, j as int);
        let l: usize = resolved.len() - base;
        let groups: usize = (l + RECORD_WIDTH - 1) / RECORD_WIDTH;
        let count: usize = if l == 0 {
            0
        } else {
            groups - 1
        };
        assert(body.len() == l);
        let url = instance.make_url();
        let mut submits: Vec<Submit> = Vec::new();
        let mut m: usize = 0;
        assert(models(submits@) =~= Seq::<SubmitModel>::empty());
        while m < count
            invariant
                m <= count,
                n == resolved@.len(),
                res == views(resolved@),
                deserialized(data@) == Ok::<Seq<Seq<char>>, ParseError>(res),
                marker_pos(res) == j,
                j < res.len(),
                body == table_body(res, j as int),
                count == record_count(l as int),
                groups == group_count(l as int),
                l == body.len(),
                base + l == resolved@.len(),
                body == views(resolved@).subrange(base as int, resolved@.len() as int),
                url@ == instance_url(instance.host@),
                build_records(url@, body, m as int) == Ok::<Seq<SubmitModel>, ParseError>(
                    models(submits@),
                ),
            decreases count - m,
        {
            let q: usize = groups - 2 - m;
            assert(q * RECORD_WIDTH + RECORD_WIDTH <= l);
            let at: usize = base + q * RECORD_WIDTH;
            assert(group(body, group_of_record(l as int, m as int)) =~~= views(resolved@).subrange(
                at as int,
                at + RECORD_WIDTH,
            ));
            let rec = match Self::make_submit(&url, resolved.as_slice(), at) {
                Ok(x) => x,
                Err(e) => {
                    proof {
                        assert(build_records(url@, body, m + 1) == Err::<Seq<SubmitModel>, ParseError>(e));
                        lemma_build_failed_prefix(url@, body, m + 1, count as int);
                    }
                    return Err(e);
                },
            };
            let ghost before = models(submits@);
            submits.push(rec);
            assert(models(submits@) =~= before.push(rec@));
            m = m + 1;
        }
        let r = Results { submits };
        assert(r@ =~= models(r.submits@));
        Ok(r)
    }
}

} // verus!
