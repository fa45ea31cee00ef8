//! What a human reader is told about an event.

use vstd::prelude::*;
use vstd::string::StringExecFns;

use crate::domain::fields::FieldMap;

verus! {

/// The contents of [`EventMetadata`].
#[verifier::ext_equal]
pub struct MetadataModel {
    /// Level of the event.
    pub level: Seq<char>,
    /// Message of the event.
    pub message: Seq<char>,
    /// Target of the event.
    pub target: Seq<char>,
    /// Names and values of its fields, in ascending order of names.
    pub pairs: Seq<(Seq<char>, Seq<char>)>,
}

/// An event in short: `[level] target: message`.
pub open spec fn brief_text(m: MetadataModel) -> Seq<char> {
    "["@ + m.level + "] "@ + m.target + ": "@ + m.message
}

/// One field as `name=value`.
pub open spec fn field_text(pair: (Seq<char>, Seq<char>)) -> Seq<char> {
    pair.0 + "="@ + pair.1
}

/// Fields as `name=value`, separated by commas.
pub open spec fn fields_text(pairs: Seq<(Seq<char>, Seq<char>)>) -> Seq<char>
    decreases pairs.len(),
{
    if pairs.len() == 0 {
        Seq::empty()
    } else if pairs.len() == 1 {
        field_text(pairs[0])
    } else {
        fields_text(pairs.drop_last()) + ", "@ + field_text(pairs.last())
    }
}

/// An event with its fields: `[level] target: message {name=value, ...}`.
pub open spec fn detailed_text(m: MetadataModel) -> Seq<char> {
    if m.pairs.len() == 0 {
        brief_text(m)
    } else {
        brief_text(m) + " {"@ + fields_text(m.pairs) + "}"@
    }
}

/// Details of an event, kept for summaries.
#[derive(Debug)]
pub struct EventMetadata {
    /// Level of the event.
    pub level: String,
    /// Message of the event.
    pub message: String,
    /// Target of the event.
    pub target: String,
    /// Fields of the event.
    pub fields: FieldMap,
}

impl EventMetadata {
    /// The contents.
    pub open spec fn view(&self) -> MetadataModel {
        MetadataModel {
            level: self.level@,
            message: self.message@,
            target: self.target@,
            pairs: self.fields.pairs(),
        }
    }

    /// Collects the details of an event.
    pub fn new(
        level: String,
        message: String,
        target: String,
        fields: FieldMap,
    ) -> (r: EventMetadata)
        ensures
            r.level == level,
            r.message == message,
            r.target == target,
            r.fields == fields,
    {
        EventMetadata { level, message, target, fields }
    }

    /// The event in short: level, target and message.
    pub fn format_brief(&self) -> (r: String)
        ensures
            r@ == brief_text(self@),
    {
        let mut out = String::new();
        out.append("[");
        out.append(self.level.as_str());
        out.append("] ");
        out.append(self.target.as_str());
        out.append(": ");
        out.append(self.message.as_str());
        assert(out@ =~= brief_text(self@));
        out
    }

    /// The event with its fields.
    pub fn format_detailed(&self) -> (r: String)
        ensures
            r@ == detailed_text(self@),
    {
        let mut out = self.format_brief();
        let count = self.fields.len();
        if count > 0 {
            out.append(" {");
            let ghost head = out@;
            let mut i: usize = 0;
            assert(out@ =~= head + fields_text(self@.pairs.take(0)));
            while i < count
                invariant
                    count == self.fields.pairs().len(),
                    i <= count,
                    out@ == head + fields_text(self@.pairs.take(i as int)),
                decreases count - i,
            {
                if i > 0 {
                    out.append(", ");
                }
                let field = self.fields.field_at(i);
                out.append(field.name.as_str());
                out.append("=");
                out.append(field.value.as_str());
                proof {
                    let older = self@.pairs.take(i as int);
                    let newer = self@.pairs.take(i + 1);
                    assert(newer.drop_last() =~= older);
                    assert(newer.last() == self@.pairs[i as int]);
                    assert(out@ =~= head + fields_text(newer));
                }
                i += 1;
            }
            assert(self@.pairs.take(count as int) =~= self@.pairs);
            out.append("}");
            assert(out@ =~= detailed_text(self@));
        }
        out
    }
}

impl Clone for EventMetadata {
    fn clone(&self) -> (r: EventMetadata)
        ensures
            r@ == self@,
    {
        EventMetadata {
            level: self.level.clone(),
            message: self.message.clone(),
            target: self.target.clone(),
            fields: self.fields.clone(),
        }
    }
}

/// The contents behind optional details.
pub open spec fn optional_metadata(m: Option<EventMetadata>) -> Option<MetadataModel> {
    match m {
        None => None,
        Some(metadata) => Some(metadata@),
    }
}

/// A copy of optional details.
pub fn clone_metadata(m: &Option<EventMetadata>) -> (r: Option<EventMetadata>)
    ensures
        optional_metadata(r) == optional_metadata(*m),
        r is Some <==> m is Some,
        r is Some ==> r->0@ == m->0@,
{
    match m {
        None => None,
        Some(metadata) => Some(metadata.clone()),
    }
}

/// Fields are written one after the other, each as its name, an equals sign and its
/// value, and separated by a comma and a space.
pub proof fn lemma_fields_are_written_in_turn(
    p: Seq<(Seq<char>, Seq<char>)>,
    name: Seq<char>,
    value: Seq<char>,
    q: Seq<(Seq<char>, Seq<char>)>,
)
    ensures
        fields_text(Seq::empty()) == Seq::<char>::empty(),
        fields_text(seq![(name, value)]) == name + "="@ + value,
        p.len() > 0 && q.len() > 0 ==> fields_text(p + q) == fields_text(p) + ", "@ + fields_text(
            q,
        ),
    decreases q.len(),
{
    if p.len() > 0 && q.len() > 0 {
        let all = p + q;
        assert(all.last() == q.last());
        assert(all.drop_last() =~= p + q.drop_last());
        if q.len() == 1 {
            assert(all.drop_last() =~= p);
            assert(q[0] == q.last());
        } else {
            lemma_fields_are_written_in_turn(p, name, value, q.drop_last());
        }
        assert(fields_text(all) =~= fields_text(p) + ", "@ + fields_text(q));
    }
}

/// The long text of an event is its short text, followed by its fields in braces if it
/// has any. The short text is level, target and message.
pub proof fn lemma_texts_of_an_event(m: MetadataModel)
    ensures
        brief_text(m) == "["@ + m.level + "] "@ + m.target + ": "@ + m.message,
        m.pairs.len() == 0 ==> detailed_text(m) == brief_text(m),
        m.pairs.len() > 0 ==> detailed_text(m) == brief_text(m) + " {"@ + fields_text(m.pairs)
            + "}"@,
{
}

/// Optional details are there if and only if there are details, and hold them.
pub proof fn lemma_optional_details_are_those_details(m: EventMetadata)
    ensures
        optional_metadata(None) is None,
        optional_metadata(Some(m)) == Some(
            MetadataModel {
                level: m.level@,
                message: m.message@,
                target: m.target@,
                pairs: m.fields.pairs(),
            },
        ),
{
}

} // verus!
