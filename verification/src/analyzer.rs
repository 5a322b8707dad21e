//! The metadata analyser: for each property key of a feature collection its
//! type label and the distinct values seen under it.

use vstd::prelude::*;
use vstd::string::{StringExecFns, StringSliceAdditionalSpecFns};
use crate::feature::{collected_properties, feature_views, Feature};
use crate::metadata::{AttributeStats, FieldType};
use crate::properties::{properties_view, PropertyValue, PropertyValueView, PropertyView};
use crate::vector_tile::strings_view;

verus! {

/// Largest number of values that the statistics of one attribute list.
pub const MAX_ATTRIBUTE_VALUES: usize = 100;

/// Whether `a` comes before `b` in the order of byte strings: at the first
/// place where they differ `a` has the smaller byte, or `a` ends there and
/// `b` goes on.
pub open spec fn bytes_less(a: Seq<u8>, b: Seq<u8>) -> bool
    decreases a.len(),
{
    if b.len() == 0 {
        false
    } else if a.len() == 0 {
        true
    } else if a[0] != b[0] {
        a[0] < b[0]
    } else {
        bytes_less(a.drop_first(), b.drop_first())
    }
}

/// Whether the text `a` comes before `b`: the order of their UTF-8 bytes.
pub open spec fn text_less(a: Seq<char>, b: Seq<char>) -> bool {
    bytes_less(vstd::utf8::encode_utf8(a), vstd::utf8::encode_utf8(b))
}

/// Decides whether `a` comes before `b`.
pub fn text_before(a: &str, b: &str) -> (r: bool)
    ensures
        r == text_less(a@, b@),
{
    let x = a.as_bytes();
    let y = b.as_bytes();
    let mut i: usize = 0;
    assert(x@.skip(0) =~= x@ && y@.skip(0) =~= y@);
    while i < x.len() && i < y.len()
        invariant
            i <= x.len(),
            i <= y.len(),
            x@ == a.spec_bytes(),
            y@ == b.spec_bytes(),
            bytes_less(x@, y@) == bytes_less(x@.skip(i as int), y@.skip(i as int)),
        decreases x.len() - i,
    {
        proof {
            assert(x@.skip(i as int).drop_first() =~= x@.skip(i + 1));
            assert(y@.skip(i as int).drop_first() =~= y@.skip(i + 1));
            assert(x@.skip(i as int)[0] == x@[i as int]);
            assert(y@.skip(i as int)[0] == y@[i as int]);
        }
        if x[i] != y[i] {
            return x[i] < y[i];
        }
        i += 1;
    }
    i < y.len()
}

/// The type label of a value: a number is `Number`, a boolean `Boolean`,
/// anything else `String`.
pub open spec fn value_type(v: PropertyValueView) -> FieldType {
    match v {
        PropertyValueView::Integer { value, text } => FieldType::Number,
        PropertyValueView::Double { bits, text } => FieldType::Number,
        PropertyValueView::Boolean(b) => FieldType::Boolean,
        _ => FieldType::String,
    }
}

/// The text under which a value is listed; an array or object is not listed.
pub open spec fn value_text(v: PropertyValueView) -> Option<Seq<char>> {
    match v {
        PropertyValueView::String(s) => Some(s),
        PropertyValueView::Integer { value, text } => Some(text),
        PropertyValueView::Double { bits, text } => Some(text),
        PropertyValueView::Boolean(b) => Some(
            if b {
                "true"@
            } else {
                "false"@
            },
        ),
        PropertyValueView::Null => Some("null"@),
        PropertyValueView::Other => None,
    }
}

/// The label of a field after one more value: the label that all values
/// share, `String` once they differ.
pub open spec fn merge_type(seen: FieldType, next: FieldType) -> FieldType {
    if seen == next {
        seen
    } else {
        FieldType::String
    }
}

/// The ascending list `list` of distinct texts with `v` put in its place,
/// unless it is there already.
pub open spec fn insert_text(list: Seq<Seq<char>>, v: Seq<char>) -> Seq<Seq<char>>
    decreases list.len(),
{
    if list.len() == 0 {
        seq![v]
    } else if list[0] == v {
        list
    } else if text_less(v, list[0]) {
        seq![v] + list
    } else {
        seq![list[0]] + insert_text(list.drop_first(), v)
    }
}

/// `list` with the text of a value put in its place, if the value has one.
pub open spec fn add_text(list: Seq<Seq<char>>, v: Option<Seq<char>>) -> Seq<Seq<char>> {
    match v {
        Some(t) => insert_text(list, t),
        None => list,
    }
}

/// What is known of one property key: its label so far and the distinct
/// texts of its values, ascending.
#[derive(Debug)]
pub struct KeyStats {
    pub key: String,
    pub field_type: FieldType,
    pub values: Vec<String>,
}

/// What a `KeyStats` holds, as mathematical values.
pub struct KeyStatsView {
    pub key: Seq<char>,
    pub field_type: FieldType,
    pub values: Seq<Seq<char>>,
}

impl View for KeyStats {
    type V = KeyStatsView;

    open spec fn view(&self) -> KeyStatsView {
        KeyStatsView {
            key: self.key@,
            field_type: self.field_type,
            values: strings_view(self.values@),
        }
    }
}

/// The views of a list of key statistics.
pub open spec fn stats_view(stats: Seq<KeyStats>) -> Seq<KeyStatsView> {
    stats.map_values(|s: KeyStats| s@)
}

/// The statistics of a key seen for the first time, with the value `v`.
pub open spec fn first_stats(key: Seq<char>, v: PropertyValueView) -> KeyStatsView {
    KeyStatsView {
        key: key,
        field_type: value_type(v),
        values: add_text(Seq::<Seq<char>>::empty(), value_text(v)),
    }
}

/// The statistics `s` after one more value `v` of its key.
pub open spec fn merged_stats(s: KeyStatsView, v: PropertyValueView) -> KeyStatsView {
    KeyStatsView {
        key: s.key,
        field_type: merge_type(s.field_type, value_type(v)),
        values: add_text(s.values, value_text(v)),
    }
}

/// The statistics `state`, ascending by key, after the property `p`: the
/// record of its key merged with its value, or a new record in its place.
pub open spec fn upsert(state: Seq<KeyStatsView>, p: PropertyView) -> Seq<KeyStatsView>
    decreases state.len(),
{
    if state.len() == 0 {
        seq![first_stats(p.0, p.1)]
    } else if state[0].key == p.0 {
        seq![merged_stats(state[0], p.1)] + state.drop_first()
    } else if text_less(p.0, state[0].key) {
        seq![first_stats(p.0, p.1)] + state
    } else {
        seq![state[0]] + upsert(state.drop_first(), p)
    }
}

/// The statistics of all keys of `props`, ascending by key.
pub open spec fn analyzed(props: Seq<PropertyView>) -> Seq<KeyStatsView>
    decreases props.len(),
{
    if props.len() == 0 {
        Seq::<KeyStatsView>::empty()
    } else {
        upsert(analyzed(props.drop_last()), props.last())
    }
}

/// The values that the statistics of an attribute list: the first hundred.
pub open spec fn listed_values(values: Seq<Seq<char>>) -> Seq<Seq<char>> {
    if values.len() > MAX_ATTRIBUTE_VALUES {
        values.take(MAX_ATTRIBUTE_VALUES as int)
    } else {
        values
    }
}

/// Whether `fields` names each key of `state` with its label, in order.
pub open spec fn fields_match(fields: Seq<(String, FieldType)>, state: Seq<KeyStatsView>) -> bool {
    &&& fields.len() == state.len()
    &&& forall|i: int|
        0 <= i < state.len() ==> (#[trigger] fields[i]).0@ == state[i].key && fields[i].1
            == state[i].field_type
}

/// Whether `attributes` holds for each key of `state`, in order, its name,
/// whether its label is `Number`, and its listed values with their count.
pub open spec fn attributes_match(
    attributes: Seq<AttributeStats>,
    state: Seq<KeyStatsView>,
) -> bool {
    &&& attributes.len() == state.len()
    &&& forall|i: int|
        0 <= i < state.len() ==> {
            &&& (#[trigger] attributes[i]).attribute@ == state[i].key
            &&& attributes[i].numeric == (state[i].field_type == FieldType::Number)
            &&& strings_view(attributes[i].values@) == listed_values(state[i].values)
            &&& attributes[i].count == listed_values(state[i].values).len()
        }
}

/// Puts `v` in its place in the ascending list of distinct texts.
fn insert_text_into(list: &mut Vec<String>, v: String)
    ensures
        strings_view(final(list)@) == insert_text(strings_view(old(list)@), v@),
{
    let ghost before = strings_view(list@);
    let mut p: usize = 0;
    assert(before.take(0) + insert_text(before.skip(0), v@) =~= insert_text(before, v@)) by {
        assert(before.skip(0) =~= before);
    }
    while p < list.len()
        invariant
            p <= list.len(),
            list@ == old(list)@,
            before == strings_view(list@),
            insert_text(before, v@) == before.take(p as int) + insert_text(
                before.skip(p as int),
                v@,
            ),
        decreases list.len() - p,
    {
        let ghost rest = before.skip(p as int);
        proof {
            assert(rest[0] == list@[p as int]@);
            assert(rest.drop_first() =~= before.skip(p + 1));
            assert(before.take(p + 1) =~= before.take(p as int) + seq![rest[0]]);
        }
        if list[p] == v {
            proof {
                assert(before.take(p as int) + rest =~= before);
            }
            return ;
        }
        if text_before(v.as_str(), list[p].as_str()) {
            list.insert(p, v);
            proof {
                assert(strings_view(list@) =~= before.take(p as int) + (seq![v@] + rest));
            }
            return ;
        }
        proof {
            assert(before.take(p as int) + (seq![rest[0]] + insert_text(rest.drop_first(), v@))
                =~= before.take(p + 1) + insert_text(before.skip(p + 1), v@));
        }
        p += 1;
    }
    list.push(v);
    proof {
        assert(before.skip(p as int) =~= Seq::<Seq<char>>::empty());
        assert(before.take(p as int) =~= before);
        assert(strings_view(list@) =~= before + seq![v@]);
    }
}

/// Gives the text under which a value is listed.
fn text_of(value: &PropertyValue) -> (r: Option<String>)
    ensures
        match r {
            Some(t) => value_text(value@) == Some(t@),
            None => value_text(value@).is_none(),
        },
{
    match value {
        PropertyValue::String(s) => Some(s.clone()),
        PropertyValue::Integer { value, text } => Some(text.clone()),
        PropertyValue::Double { bits, text } => Some(text.clone()),
        PropertyValue::Boolean(b) => Some(
            String::from_str(
                if *b {
                    "true"
                } else {
                    "false"
                },
            ),
        ),
        PropertyValue::Null => Some(String::from_str("null")),
        PropertyValue::Other => None,
    }
}

/// Gives the type label of a value.
fn type_of(value: &PropertyValue) -> (r: FieldType)
    ensures
        r == value_type(value@),
{
    match value {
        PropertyValue::Integer { value, text } => FieldType::Number,
        PropertyValue::Double { bits, text } => FieldType::Number,
        PropertyValue::Boolean(b) => FieldType::Boolean,
        _ => FieldType::String,
    }
}

/// Enters one property into the statistics.
fn upsert_into(stats: &mut Vec<KeyStats>, key: &String, value: &PropertyValue)
    ensures
        stats_view(final(stats)@) == upsert(stats_view(old(stats)@), (key@, value@)),
{
    let ghost before = stats_view(stats@);
    let ghost prop = (key@, value@);
    let mut p: usize = 0;
    assert(before.take(0) + upsert(before.skip(0), prop) =~= upsert(before, prop)) by {
        assert(before.skip(0) =~= before);
    }
    while p < stats.len()
        invariant
            p <= stats.len(),
            stats@ == old(stats)@,
            before == stats_view(stats@),
            prop == (key@, value@),
            upsert(before, prop) == before.take(p as int) + upsert(before.skip(p as int), prop),
        decreases stats.len() - p,
    {
        let ghost rest = before.skip(p as int);
        proof {
            assert(rest[0] == stats@[p as int]@);
            assert(rest.drop_first() =~= before.skip(p + 1));
            assert(before.take(p + 1) =~= before.take(p as int) + seq![rest[0]]);
        }
        if stats[p].key == *key {
            let mut record = stats.remove(p);
            record.field_type = if record.field_type == type_of(value) {
                record.field_type
            } else {
                FieldType::String
            };
            match text_of(value) {
                Some(t) => {
                    insert_text_into(&mut record.values, t);
                },
                None => {},
            }
            assert(record@ == merged_stats(rest[0], value@));
            stats.insert(p, record);
            proof {
                assert(stats_view(stats@) =~= before.take(p as int) + (seq![
                    merged_stats(rest[0], value@),
                ] + rest.drop_first()));
            }
            return ;
        }
        if text_before(key.as_str(), stats[p].key.as_str()) {
            let record = new_record(key, value);
            stats.insert(p, record);
            proof {
                assert(stats_view(stats@) =~= before.take(p as int) + (seq![
                    first_stats(key@, value@),
                ] + rest));
            }
            return ;
        }
        proof {
            assert(before.take(p as int) + (seq![rest[0]] + upsert(rest.drop_first(), prop))
                =~= before.take(p + 1) + upsert(before.skip(p + 1), prop));
        }
        p += 1;
    }
    let record = new_record(key, value);
    stats.push(record);
    proof {
        assert(before.skip(p as int) =~= Seq::<KeyStatsView>::empty());
        assert(before.take(p as int) =~= before);
        assert(stats_view(stats@) =~= before + seq![first_stats(key@, value@)]);
    }
}

/// Makes the record of a key seen for the first time.
fn new_record(key: &String, value: &PropertyValue) -> (r: KeyStats)
    ensures
        r@ == first_stats(key@, value@),
{
    let mut values: Vec<String> = Vec::new();
    assert(strings_view(values@) =~= Seq::<Seq<char>>::empty());
    match text_of(value) {
        Some(t) => {
            insert_text_into(&mut values, t);
        },
        None => {},
    }
    KeyStats { key: key.clone(), field_type: type_of(value), values }
}

/// Copies a list of texts.
fn copy_strings(list: &Vec<String>, n: usize) -> (out: Vec<String>)
    requires
        n <= list.len(),
    ensures
        strings_view(out@) == strings_view(list@).take(n as int),
{
    let mut out: Vec<String> = Vec::new();
    let mut i: usize = 0;
    assert(strings_view(out@) =~= strings_view(list@).take(0));
    while i < n
        invariant
            i <= n <= list.len(),
            strings_view(out@) == strings_view(list@).take(i as int),
        decreases n - i,
    {
        let ghost before = out@;
        let text = list[i].clone();
        assert(text@ == list@[i as int]@);
        out.push(text);
        assert(strings_view(out@) =~= strings_view(before).push(text@));
        assert(strings_view(list@).take(i + 1) =~= strings_view(list@).take(i as int).push(
            list@[i as int]@,
        ));
        i += 1;
    }
    out
}

/// Scans the properties of all features and gives, ascending by key, the
/// fields with their type labels and the statistics of each attribute.
pub fn analyze_properties(features: &[Feature]) -> (r: (Vec<(String, FieldType)>, Vec<AttributeStats>))
    ensures
        fields_match(r.0@, analyzed(collected_properties(feature_views(features@)))),
        attributes_match(r.1@, analyzed(collected_properties(feature_views(features@)))),
{
    let ghost fv = feature_views(features@);
    let mut stats: Vec<KeyStats> = Vec::new();
    let mut i: usize = 0;
    assert(stats_view(stats@) =~= analyzed(collected_properties(fv.take(0)))) by {
        assert(fv.take(0) =~= Seq::empty());
    }
    while i < features.len()
        invariant
            i <= features.len(),
            fv == feature_views(features@),
            stats_view(stats@) == analyzed(collected_properties(fv.take(i as int))),
        decreases features.len() - i,
    {
        let properties = &features[i].properties;
        let ghost props = properties_view(properties@);
        let ghost done = collected_properties(fv.take(i as int));
        proof {
            assert(fv[i as int] == features@[i as int]@);
            assert(fv.take(i + 1).drop_last() =~= fv.take(i as int));
            assert(collected_properties(fv.take(i + 1)) == done + props);
            assert(done + props.take(0) =~= done);
        }
        let mut j: usize = 0;
        while j < properties.len()
            invariant
                j <= properties.len(),
                props == properties_view(properties@),
                stats_view(stats@) == analyzed(done + props.take(j as int)),
            decreases properties.len() - j,
        {
            proof {
                let next = done + props.take(j + 1);
                assert(next.drop_last() =~= done + props.take(j as int));
                assert(next.last() == (properties@[j as int].0@, properties@[j as int].1@));
            }
            upsert_into(&mut stats, &properties[j].0, &properties[j].1);
            j += 1;
        }
        assert(props.take(j as int) =~= props);
        i += 1;
    }
    assert(fv.take(i as int) =~= fv);
    let ghost state = stats_view(stats@);
    let mut fields: Vec<(String, FieldType)> = Vec::new();
    let mut attributes: Vec<AttributeStats> = Vec::new();
    let mut k: usize = 0;
    while k < stats.len()
        invariant
            k <= stats.len(),
            state == stats_view(stats@),
            fields_match(fields@, state.take(k as int)),
            attributes_match(attributes@, state.take(k as int)),
        decreases stats.len() - k,
    {
        let record = &stats[k];
        assert(state[k as int] == record@);
        let shown: usize = if record.values.len() > MAX_ATTRIBUTE_VALUES {
            MAX_ATTRIBUTE_VALUES
        } else {
            record.values.len()
        };
        let values = copy_strings(&record.values, shown);
        assert(strings_view(values@) =~= listed_values(state[k as int].values));
        let ghost fields0 = fields@;
        let ghost attributes0 = attributes@;
        fields.push((record.key.clone(), record.field_type));
        attributes.push(
            AttributeStats {
                attribute: record.key.clone(),
                count: shown,
                numeric: record.field_type == FieldType::Number,
                values,
            },
        );
        proof {
            let upto = state.take(k + 1);
            assert forall|i: int| 0 <= i < upto.len() implies (#[trigger] fields@[i]).0@
                == upto[i].key && fields@[i].1 == upto[i].field_type by {
                if i < k {
                    assert(fields@[i] == fields0[i]);
                    assert(upto[i] == state.take(k as int)[i]);
                }
            }
            assert forall|i: int| 0 <= i < upto.len() implies {
                &&& (#[trigger] attributes@[i]).attribute@ == upto[i].key
                &&& attributes@[i].numeric == (upto[i].field_type == FieldType::Number)
                &&& strings_view(attributes@[i].values@) == listed_values(upto[i].values)
                &&& attributes@[i].count == listed_values(upto[i].values).len()
            } by {
                if i < k {
                    assert(attributes@[i] == attributes0[i]);
                    assert(upto[i] == state.take(k as int)[i]);
                }
            }
        }
        k += 1;
    }
    assert(state.take(k as int) =~= state);
    (fields, attributes)
}

/// Of two byte strings one comes before the other, or they are the same;
/// never both come before each other.
pub proof fn lemma_bytes_order(a: Seq<u8>, b: Seq<u8>)
    ensures
        a == b || bytes_less(a, b) || bytes_less(b, a),
        !(bytes_less(a, b) && bytes_less(b, a)),
        !bytes_less(a, a),
    decreases a.len(),
{
    if a.len() > 0 {
        lemma_bytes_order(a.drop_first(), a.drop_first());
    }
    if a.len() == 0 || b.len() == 0 {
        if a.len() == 0 && b.len() == 0 {
            assert(a =~= b);
        }
    } else if a[0] == b[0] {
        lemma_bytes_order(a.drop_first(), b.drop_first());
        if a.drop_first() == b.drop_first() {
            assert(a =~= seq![a[0]] + a.drop_first());
            assert(b =~= seq![b[0]] + b.drop_first());
        }
    }
}

/// What comes before one that comes before a third comes before the third.
pub proof fn lemma_bytes_less_transitive(a: Seq<u8>, b: Seq<u8>, c: Seq<u8>)
    requires
        bytes_less(a, b),
        bytes_less(b, c),
    ensures
        bytes_less(a, c),
    decreases a.len(),
{
    if a.len() > 0 && b.len() > 0 && c.len() > 0 && a[0] == b[0] && b[0] == c[0] {
        lemma_bytes_less_transitive(a.drop_first(), b.drop_first(), c.drop_first());
    }
}

/// Of two texts one comes before the other, or they are the same; never
/// both come before each other.
pub proof fn lemma_text_order(a: Seq<char>, b: Seq<char>)
    ensures
        a == b || text_less(a, b) || text_less(b, a),
        !(text_less(a, b) && text_less(b, a)),
        !text_less(a, a),
{
    lemma_bytes_order(vstd::utf8::encode_utf8(a), vstd::utf8::encode_utf8(b));
    lemma_bytes_order(vstd::utf8::encode_utf8(a), vstd::utf8::encode_utf8(a));
    vstd::utf8::encode_utf8_decode_utf8(a);
    vstd::utf8::encode_utf8_decode_utf8(b);
}

/// Whether each text of the list comes before those behind it.
pub open spec fn texts_ascending(list: Seq<Seq<char>>) -> bool {
    forall|i: int, j: int|
        0 <= i < j < list.len() ==> text_less(#[trigger] list[i], #[trigger] list[j])
}

/// Putting a text in its place keeps the list ascending, and the list then
/// holds that text and what it held before, nothing else.
pub proof fn lemma_insert_text(list: Seq<Seq<char>>, v: Seq<char>)
    requires
        texts_ascending(list),
    ensures
        texts_ascending(insert_text(list, v)),
        insert_text(list, v).contains(v),
        forall|t: Seq<char>| list.contains(t) ==> insert_text(list, v).contains(t),
        forall|i: int|
            0 <= i < insert_text(list, v).len() ==> #[trigger] insert_text(list, v)[i] == v
                || list.contains(insert_text(list, v)[i]),
    decreases list.len(),
{
    let r = insert_text(list, v);
    if list.len() == 0 {
        assert(r[0] == v);
    } else if list[0] == v {
        assert(r[0] == v);
    } else if text_less(v, list[0]) {
        assert(r =~= seq![v] + list);
        assert(r[0] == v);
        assert forall|t: Seq<char>| list.contains(t) implies r.contains(t) by {
            let k = choose|k: int| 0 <= k < list.len() && list[k] == t;
            assert(r[k + 1] == t);
        }
        assert forall|i: int, j: int| 0 <= i < j < r.len() implies text_less(
            #[trigger] r[i],
            #[trigger] r[j],
        ) by {
            if i == 0 {
                if j > 1 {
                    assert(text_less(list[0], list[j - 1]));
                    lemma_bytes_less_transitive(
                        vstd::utf8::encode_utf8(v),
                        vstd::utf8::encode_utf8(list[0]),
                        vstd::utf8::encode_utf8(list[j - 1]),
                    );
                }
            } else {
                assert(text_less(list[i - 1], list[j - 1]));
            }
        }
        assert forall|i: int| 0 <= i < r.len() implies #[trigger] r[i] == v || list.contains(
            r[i],
        ) by {
            if i > 0 {
                assert(list[i - 1] == r[i]);
            }
        }
    } else {
        let rest = list.drop_first();
        let q = insert_text(rest, v);
        assert forall|i: int, j: int| 0 <= i < j < rest.len() implies text_less(
            #[trigger] rest[i],
            #[trigger] rest[j],
        ) by {
            assert(text_less(list[i + 1], list[j + 1]));
        }
        lemma_insert_text(rest, v);
        lemma_text_order(v, list[0]);
        assert(r =~= seq![list[0]] + q);
        let k = choose|k: int| 0 <= k < q.len() && q[k] == v;
        assert(r[k + 1] == v);
        assert forall|t: Seq<char>| list.contains(t) implies r.contains(t) by {
            let k = choose|k: int| 0 <= k < list.len() && list[k] == t;
            if k == 0 {
                assert(r[0] == t);
            } else {
                assert(rest[k - 1] == t);
                assert(rest.contains(t));
                assert(q.contains(t));
                let m = choose|m: int| 0 <= m < q.len() && q[m] == t;
                assert(r[m + 1] == t);
            }
        }
        assert forall|i: int| 0 <= i < r.len() implies #[trigger] r[i] == v || list.contains(
            r[i],
        ) by {
            if i == 0 {
                assert(list[0] == r[0]);
            } else if q[i - 1] != v {
                assert(rest.contains(q[i - 1]));
                let m = choose|m: int| 0 <= m < rest.len() && rest[m] == q[i - 1];
                assert(list[m + 1] == r[i]);
            }
        }
        assert forall|i: int, j: int| 0 <= i < j < r.len() implies text_less(
            #[trigger] r[i],
            #[trigger] r[j],
        ) by {
            if i == 0 {
                if q[j - 1] != v {
                    assert(rest.contains(q[j - 1]));
                    let m = choose|m: int| 0 <= m < rest.len() && rest[m] == q[j - 1];
                    assert(text_less(list[0], list[m + 1]));
                }
            } else {
                assert(text_less(q[i - 1], q[j - 1]));
            }
        }
    }
}

/// Whether the records are ascending by key, each with ascending values.
pub open spec fn stats_ascending(state: Seq<KeyStatsView>) -> bool {
    &&& forall|i: int, j: int|
        0 <= i < j < state.len() ==> text_less(
            (#[trigger] state[i]).key,
            (#[trigger] state[j]).key,
        )
    &&& forall|i: int| 0 <= i < state.len() ==> texts_ascending((#[trigger] state[i]).values)
}

/// The values of a record stay ascending when a text is added.
proof fn lemma_add_text(list: Seq<Seq<char>>, v: Option<Seq<char>>)
    requires
        texts_ascending(list),
    ensures
        texts_ascending(add_text(list, v)),
{
    match v {
        Some(t) => {
            lemma_insert_text(list, t);
        },
        None => {},
    }
}

/// Whether the records hold one of the key `key`.
pub open spec fn has_key(state: Seq<KeyStatsView>, key: Seq<char>) -> bool {
    exists|k: int| 0 <= k < state.len() && (#[trigger] state[k]).key == key
}

/// Whether a property has the key `key`.
pub open spec fn key_occurs(props: Seq<PropertyView>, key: Seq<char>) -> bool {
    exists|j: int| 0 <= j < props.len() && (#[trigger] props[j]).0 == key
}

/// Entering a property keeps the records ascending. The records then are
/// those of the keys before and of the property's key.
proof fn lemma_upsert(state: Seq<KeyStatsView>, p: PropertyView)
    requires
        stats_ascending(state),
    ensures
        stats_ascending(upsert(state, p)),
        has_key(upsert(state, p), p.0),
        forall|i: int| 0 <= i < state.len() ==> has_key(upsert(state, p), (#[trigger] state[i]).key),
        forall|k: int|
            0 <= k < upsert(state, p).len() ==> (#[trigger] upsert(state, p)[k]).key == p.0
                || has_key(state, upsert(state, p)[k].key),
    decreases state.len(),
{
    let r = upsert(state, p);
    let empty = Seq::<Seq<char>>::empty();
    if state.len() == 0 {
        lemma_add_text(empty, value_text(p.1));
        assert(r[0].key == p.0);
    } else if state[0].key == p.0 {
        let rest = state.drop_first();
        assert(r =~= seq![merged_stats(state[0], p.1)] + rest);
        assert(texts_ascending(state[0].values));
        lemma_add_text(state[0].values, value_text(p.1));
        assert(r[0].key == p.0);
        assert forall|k: int| 0 <= k < r.len() implies (#[trigger] r[k]).key == state[k].key by {
            if k > 0 {
                assert(r[k] == rest[k - 1]);
            }
        }
        assert forall|i: int, j: int| 0 <= i < j < r.len() implies text_less(
            (#[trigger] r[i]).key,
            (#[trigger] r[j]).key,
        ) by {
            assert(text_less(state[i].key, state[j].key));
        }
        assert forall|i: int| 0 <= i < r.len() implies texts_ascending(
            (#[trigger] r[i]).values,
        ) by {
            if i > 0 {
                assert(r[i] == state[i]);
            }
        }
        assert forall|i: int| 0 <= i < state.len() implies has_key(
            r,
            (#[trigger] state[i]).key,
        ) by {
            assert(r[i].key == state[i].key);
        }
        assert forall|k: int| 0 <= k < r.len() implies (#[trigger] r[k]).key == p.0 || has_key(
            state,
            r[k].key,
        ) by {
            assert(state[k].key == r[k].key);
        }
    } else if text_less(p.0, state[0].key) {
        assert(r =~= seq![first_stats(p.0, p.1)] + state);
        lemma_add_text(empty, value_text(p.1));
        assert(r[0].key == p.0);
        assert forall|i: int, j: int| 0 <= i < j < r.len() implies text_less(
            (#[trigger] r[i]).key,
            (#[trigger] r[j]).key,
        ) by {
            if i == 0 {
                if j > 1 {
                    assert(text_less(state[0].key, state[j - 1].key));
                    lemma_bytes_less_transitive(
                        vstd::utf8::encode_utf8(p.0),
                        vstd::utf8::encode_utf8(state[0].key),
                        vstd::utf8::encode_utf8(state[j - 1].key),
                    );
                }
            } else {
                assert(text_less(state[i - 1].key, state[j - 1].key));
            }
        }
        assert forall|i: int| 0 <= i < r.len() implies texts_ascending(
            (#[trigger] r[i]).values,
        ) by {
            if i > 0 {
                assert(r[i] == state[i - 1]);
            }
        }
        assert forall|i: int| 0 <= i < state.len() implies has_key(
            r,
            (#[trigger] state[i]).key,
        ) by {
            assert(r[i + 1].key == state[i].key);
        }
        assert forall|k: int| 0 <= k < r.len() implies (#[trigger] r[k]).key == p.0 || has_key(
            state,
            r[k].key,
        ) by {
            if k > 0 {
                assert(state[k - 1].key == r[k].key);
            }
        }
    } else {
        let rest = state.drop_first();
        let q = upsert(rest, p);
        assert forall|i: int, j: int| 0 <= i < j < rest.len() implies text_less(
            (#[trigger] rest[i]).key,
            (#[trigger] rest[j]).key,
        ) by {
            assert(text_less(state[i + 1].key, state[j + 1].key));
        }
        assert forall|i: int| 0 <= i < rest.len() implies texts_ascending(
            (#[trigger] rest[i]).values,
        ) by {
            assert(rest[i] == state[i + 1]);
        }
        lemma_upsert(rest, p);
        lemma_text_order(p.0, state[0].key);
        assert(r =~= seq![state[0]] + q);
        let at = choose|k: int| 0 <= k < q.len() && (#[trigger] q[k]).key == p.0;
        assert(r[at + 1].key == p.0);
        assert forall|k: int| 0 <= k < r.len() implies (#[trigger] r[k]).key == p.0 || has_key(
            state,
            r[k].key,
        ) by {
            if k == 0 {
                assert(state[0].key == r[0].key);
            } else if q[k - 1].key != p.0 {
                assert(has_key(rest, q[k - 1].key));
                let m = choose|m: int|
                    0 <= m < rest.len() && (#[trigger] rest[m]).key == q[k - 1].key;
                assert(state[m + 1].key == r[k].key);
            }
        }
        assert forall|i: int| 0 <= i < state.len() implies has_key(
            r,
            (#[trigger] state[i]).key,
        ) by {
            if i == 0 {
                assert(r[0].key == state[0].key);
            } else {
                assert(rest[i - 1] == state[i]);
                assert(has_key(q, rest[i - 1].key));
                let m = choose|m: int|
                    0 <= m < q.len() && (#[trigger] q[m]).key == rest[i - 1].key;
                assert(r[m + 1].key == state[i].key);
            }
        }
        assert forall|i: int, j: int| 0 <= i < j < r.len() implies text_less(
            (#[trigger] r[i]).key,
            (#[trigger] r[j]).key,
        ) by {
            if i == 0 {
                if q[j - 1].key != p.0 {
                    assert(has_key(rest, q[j - 1].key));
                    let m = choose|m: int|
                        0 <= m < rest.len() && (#[trigger] rest[m]).key == q[j - 1].key;
                    assert(text_less(state[0].key, state[m + 1].key));
                }
            } else {
                assert(text_less(q[i - 1].key, q[j - 1].key));
            }
        }
        assert forall|i: int| 0 <= i < r.len() implies texts_ascending(
            (#[trigger] r[i]).values,
        ) by {
            if i > 0 {
                assert(r[i] == q[i - 1]);
            }
        }
    }
}

/// The statistics are ascending by key with ascending values, and their
/// keys are the keys of the properties.
pub proof fn lemma_analyzed(props: Seq<PropertyView>)
    ensures
        stats_ascending(analyzed(props)),
        forall|j: int| 0 <= j < props.len() ==> has_key(analyzed(props), (#[trigger] props[j]).0),
        forall|k: int|
            0 <= k < analyzed(props).len() ==> key_occurs(
                props,
                (#[trigger] analyzed(props)[k]).key,
            ),
    decreases props.len(),
{
    if props.len() > 0 {
        let front = props.drop_last();
        let before = analyzed(front);
        let r = analyzed(props);
        lemma_analyzed(front);
        lemma_upsert(before, props.last());
        assert forall|j: int| 0 <= j < props.len() implies has_key(r, (#[trigger] props[j]).0) by {
            if j < props.len() - 1 {
                assert(front[j] == props[j]);
                assert(has_key(before, front[j].0));
                let m = choose|m: int|
                    0 <= m < before.len() && (#[trigger] before[m]).key == front[j].0;
                assert(has_key(r, before[m].key));
            }
        }
        assert forall|k: int| 0 <= k < r.len() implies key_occurs(props, (#[trigger] r[k]).key) by {
            if r[k].key == props.last().0 {
                assert(props[props.len() - 1].0 == r[k].key);
            } else {
                assert(has_key(before, r[k].key));
                let m = choose|m: int|
                    0 <= m < before.len() && (#[trigger] before[m]).key == r[k].key;
                assert(key_occurs(front, before[m].key));
                let j = choose|j: int|
                    0 <= j < front.len() && (#[trigger] front[j]).0 == before[m].key;
                assert(props[j].0 == r[k].key);
            }
        }
    }
}

} // verus!
