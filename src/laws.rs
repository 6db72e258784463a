//! Properties that hold of the pipeline for every input.
use crate::model::{ParseError, SubmitModel};
use crate::parse::{
    build_records, deserialized, group_of_record, interior, is_table_marker, lemma_split_nonempty,
    marker_pos, not_numeric, parsed, record_count, ref_run_len, resolve, split_commas, unquote,
    RECORD_WIDTH,
};
use crate::text::{all_digits, digits_value, is_first_where, is_u64_text, lemma_first_where};
use vstd::prelude::*;

verus! {

/// The numbers that the reference tokens spell.
pub open spec fn ref_values(keys: Seq<Seq<char>>) -> Seq<nat> {
    keys.map_values(|k: Seq<char>| digits_value(k))
}

pub open spec fn is_live(v: nat) -> bool {
    v != 0
}

/// The references that are not null, in their order.
pub open spec fn kept_refs(keys: Seq<Seq<char>>) -> Seq<nat> {
    ref_values(keys).filter(|v: nat| is_live(v))
}

/// Entry `j` of `r` is the unquoted pool literal that the `j`th non-zero reference names.
pub open spec fn follows_references(r: Seq<Seq<char>>, kept: Seq<nat>, pool: Seq<Seq<char>>) -> bool {
    &&& r.len() == kept.len()
    &&& forall|j: int| 0 <= j < kept.len() ==> #[trigger] kept[j] != 0 && kept[j] <= pool.len()
    &&& forall|j: int| 0 <= j < kept.len() ==> #[trigger] r[j] == unquote(pool[kept[j] - 1])
}

/// Resolution drops every zero reference and keeps each other one, in order, as the
/// unquoted pool literal at its 1-based position: the resolved sequence has exactly one
/// entry per non-zero reference, and none for a zero.
pub proof fn law_resolved_follows_references(keys: Seq<Seq<char>>, pool: Seq<Seq<char>>)
    requires
        resolve(keys, pool) is Ok,
    ensures
        follows_references(resolve(keys, pool)->Ok_0, kept_refs(keys), pool),
    decreases keys.len(),
{
    reveal(Seq::filter);
    if keys.len() > 0 {
        let k = keys.drop_last();
        law_resolved_follows_references(k, pool);
        assert(ref_values(keys).drop_last() =~= ref_values(k));
        let v = digits_value(keys.last());
        assert(ref_values(keys).last() == v);
        let r = resolve(k, pool)->Ok_0;
        let kept = kept_refs(k);
        if v == 0 {
            assert(kept_refs(keys) == kept);
            assert(resolve(keys, pool)->Ok_0 == r);
        } else {
            assert(kept_refs(keys) == kept.push(v));
            assert(resolve(keys, pool)->Ok_0 == r.push(unquote(pool[v - 1])));
            assert forall|j: int| 0 <= j < kept.len() + 1 implies #[trigger] kept.push(v)[j] != 0
                && kept.push(v)[j] <= pool.len() by {
                if j < kept.len() {
                    assert(kept[j] != 0);
                }
            }
            assert forall|j: int| 0 <= j < kept.len() + 1 implies #[trigger] r.push(
                unquote(pool[v - 1]),
            )[j] == unquote(pool[kept.push(v)[j] - 1]) by {
                if j < kept.len() {
                    assert(r[j] == unquote(pool[kept[j] - 1]));
                }
            }
        }
    } else {
        assert(kept_refs(keys).len() == 0);
    }
}

/// A quoted literal comes back as its text without the enclosing pair of quotes.
pub proof fn law_unquote_quoted(s: Seq<char>)
    ensures
        unquote(seq!['"'] + s + seq!['"']) == s,
{
    let q = seq!['"'] + s + seq!['"'];
    assert(q.drop_first() =~= s + seq!['"']);
    assert((s + seq!['"']).drop_last() =~= s);
}

/// A reference to a quoted pool literal resolves to that literal without its quotes.
pub proof fn law_reference_to_quoted_literal(k: Seq<char>, pool: Seq<Seq<char>>, s: Seq<char>)
    requires
        is_u64_text(k),
        1 <= digits_value(k) <= pool.len(),
        pool[digits_value(k) - 1] == seq!['"'] + s + seq!['"'],
    ensures
        resolve(seq![k], pool) == Ok::<Seq<Seq<char>>, ParseError>(seq![s]),
{
    law_unquote_quoted(s);
    assert(seq![k].drop_last() =~= Seq::<Seq<char>>::empty());
    assert(resolve(Seq::<Seq<char>>::empty(), pool) == Ok::<Seq<Seq<char>>, ParseError>(Seq::empty()));
    assert(seq![k].last() == k);
    assert(Seq::<Seq<char>>::empty().push(s) =~= seq![s]);
}

/// Parsing depends on nothing but its inputs: two parses of the same text for the same
/// instance give equal records, or the same failure.
pub proof fn law_parse_deterministic(
    host: Seq<char>,
    d: Seq<char>,
    a: Result<Seq<SubmitModel>, ParseError>,
    b: Result<Seq<SubmitModel>, ParseError>,
)
    requires
        a == parsed(host, d),
        b == parsed(host, d),
    ensures
        a == b,
{
}

/// A response whose first token is not a number has an empty reference run: it resolves
/// to nothing, and its parse fails for want of the table marker.
pub proof fn law_empty_reference_run(host: Seq<char>, d: Seq<char>)
    requires
        interior(d) is Ok,
        !all_digits(split_commas(interior(d)->Ok_0)[0]),
    ensures
        deserialized(d) == Ok::<Seq<Seq<char>>, ParseError>(Seq::empty()),
        parsed(host, d) == Err::<Seq<SubmitModel>, ParseError>(ParseError::SentinelNotFound),
{
    let toks = split_commas(interior(d)->Ok_0);
    lemma_split_nonempty(interior(d)->Ok_0);
    assert(not_numeric(toks[0]));
    assert(is_first_where(toks, |t: Seq<char>| not_numeric(t), 0));
    lemma_first_where(toks, |t: Seq<char>| not_numeric(t), 0);
    assert(ref_run_len(toks) == 0);
    assert(toks.take(0) =~= Seq::<Seq<char>>::empty());
    let none = Seq::<Seq<char>>::empty();
    assert(is_first_where(none, |t: Seq<char>| is_table_marker(t), 0));
    lemma_first_where(none, |t: Seq<char>| is_table_marker(t), 0);
    assert(marker_pos(none) == 0);
}

/// Records are read from whole groups only: each group read lies inside the body, and
/// where the body ends in a short group, that group alone is left out.
pub proof fn law_short_tail_group_dropped(l: int, m: int)
    requires
        0 <= l,
        0 <= m < record_count(l),
    ensures
        0 <= group_of_record(l, m),
        group_of_record(l, m) * RECORD_WIDTH + RECORD_WIDTH <= l,
        l % (RECORD_WIDTH as int) != 0 ==> record_count(l) == l / (RECORD_WIDTH as int),
{
}

/// A successful extraction yields one record for each group but the last.
pub proof fn law_record_count(url: Seq<char>, body: Seq<Seq<char>>, m: int)
    requires
        0 <= m,
        build_records(url, body, m) is Ok,
    ensures
        build_records(url, body, m)->Ok_0.len() == m,
    decreases m,
{
    if m > 0 {
        law_record_count(url, body, m - 1);
    }
}

} // verus!
