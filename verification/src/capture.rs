//! Capture of structured events and spans: the fields a visitor collects, the
//! fields a span passes to its events, and the instance an event goes to.
use vstd::prelude::*;
use crate::fields::{entries_of, Fields};
use crate::model::{field_size, spec_field_size, Refusal};
use crate::text::{byte_len, byte_length, same_text, to_chars};
use crate::value::{Value, ValueView};

verus! {

/// Spans kept at once.
pub const MAX_SPANS: usize = 1024;
/// Spans an event may be nested in.
pub const MAX_DEPTH: usize = 32;
/// Captures running at once.
pub const MAX_CAPTURES: usize = 64;
/// Bytes of the fields of one capture.
pub const FIELD_BYTES: usize = 8192;

/// Fields, message and instance collected from one event or span.
#[derive(Debug)]
pub struct Visitor {
    pub fields: Fields,
    pub message: Option<String>,
    pub instance: Option<String>,
    pub invalid: bool,
}

/// What a visitor holds.
pub struct VisitorView {
    pub fields: Map<Seq<char>, ValueView>,
    pub message: Option<Seq<char>>,
    pub instance: Option<Seq<char>>,
    pub invalid: bool,
}

pub open spec fn text_view(t: Option<String>) -> Option<Seq<char>> {
    match t {
        Some(s) => Some(s@),
        None => None,
    }
}

pub open spec fn text_bytes(t: Option<Seq<char>>) -> int {
    match t {
        Some(s) => byte_len(s) as int,
        None => 0,
    }
}

/// The budget check after each field: fields, message and instance together
/// within [`FIELD_BYTES`], else everything is dropped and the capture is invalid.
pub open spec fn checked(v: VisitorView) -> VisitorView {
    let over = match spec_field_size(entries_of(v.fields)) {
        Err(_) => true,
        Ok(n) => n + text_bytes(v.message) + text_bytes(v.instance) > FIELD_BYTES,
    };
    if over {
        VisitorView { fields: Map::empty(), message: None, instance: None, invalid: true }
    } else {
        v
    }
}

/// A field recorded: `message` and `log_instance` must be text and are kept
/// apart; another field is refused past 64 bytes of name, [`FIELD_BYTES`] of
/// value or 64 fields; nothing is recorded once invalid.
pub open spec fn put_view(v: VisitorView, name: Seq<char>, value: ValueView, count: nat) -> VisitorView {
    if v.invalid {
        v
    } else if name == "message"@ {
        match value {
            ValueView::Text(t) => checked(VisitorView { message: Some(t), ..v }),
            _ => checked(VisitorView { invalid: true, ..v }),
        }
    } else if name == "log_instance"@ {
        match value {
            ValueView::Text(t) => checked(VisitorView { instance: Some(t), ..v }),
            _ => checked(VisitorView { invalid: true, ..v }),
        }
    } else if byte_len(name) > 64 || value.size() > FIELD_BYTES || count >= 64 {
        VisitorView { invalid: true, ..v }
    } else {
        checked(VisitorView { fields: v.fields.insert(name, value), ..v })
    }
}

impl Visitor {
    pub open spec fn view(&self) -> VisitorView {
        VisitorView {
            fields: self.fields.map(),
            message: text_view(self.message),
            instance: text_view(self.instance),
            invalid: self.invalid,
        }
    }

    /// Nothing collected.
    pub fn new() -> (r: Visitor)
        ensures
            r@.fields == Map::<Seq<char>, ValueView>::empty(),
            r@.message is None && r@.instance is None && !r@.invalid,
    {
        let r = Visitor { fields: Fields::new(), message: None, instance: None, invalid: false };
        assert(r.fields.map() =~= Map::<Seq<char>, ValueView>::empty());
        r
    }

    fn check_size(&mut self)
        ensures
            final(self)@ == checked(old(self)@),
    {
        let n = self.fields.len();
        let extra_message = match &self.message {
            Some(m) => byte_length(m.as_str()),
            None => 0,
        };
        let extra_instance = match &self.instance {
            Some(m) => byte_length(m.as_str()),
            None => 0,
        };
        let over = match field_size(&self.fields) {
            Err(_) => true,
            Ok(size) => {
                size > FIELD_BYTES || extra_message > FIELD_BYTES - size || extra_instance
                    > FIELD_BYTES - size - extra_message
            },
        };
        if over {
            self.invalid = true;
            self.fields = Fields::new();
            self.message = None;
            self.instance = None;
            assert(self.fields.map() =~= Map::<Seq<char>, ValueView>::empty());
        }
    }

    /// Records a field.
    pub fn put(&mut self, name: &str, value: Value)
        ensures
            final(self)@ == put_view(old(self)@, name@, value.view(), old(self).fields@.len()),
    {
        if self.invalid {
            return;
        }
        let key = to_chars(name);
        if same_text(&key, &to_chars("message")) {
            match value {
                Value::Text(t) => self.message = Some(t),
                _ => self.invalid = true,
            }
            self.check_size();
            return;
        }
        if same_text(&key, &to_chars("log_instance")) {
            match value {
                Value::Text(t) => self.instance = Some(t),
                _ => self.invalid = true,
            }
            self.check_size();
            return;
        }
        if byte_length(name) > 64 || value.size() > FIELD_BYTES || self.fields.len() >= 64 {
            self.invalid = true;
            return;
        }
        self.fields.insert(name.to_owned(), value);
        self.check_size();
    }

    /// Records a text field; a text over [`FIELD_BYTES`] makes the capture invalid.
    pub fn record_text(&mut self, name: &str, text: &str)
        ensures
            old(self).invalid ==> final(self)@ == old(self)@,
            !old(self).invalid && byte_len(text@) > FIELD_BYTES ==> final(self)@ == (VisitorView {
                invalid: true,
                ..old(self)@
            }),
            !old(self).invalid && byte_len(text@) <= FIELD_BYTES ==> final(self)@ == put_view(
                old(self)@,
                name@,
                ValueView::Text(text@),
                old(self).fields@.len(),
            ),
    {
        if self.invalid {
            return;
        }
        if byte_length(text) > FIELD_BYTES {
            self.invalid = true;
        } else {
            self.put(name, Value::text(text));
        }
    }

    /// Records a field rendered with `Debug` within [`FIELD_BYTES`]; `None`
    /// when the rendering did not fit, which makes the capture invalid.
    pub fn record_formatted(&mut self, name: &str, text: Option<String>)
        ensures
            old(self).invalid ==> final(self)@ == old(self)@,
            !old(self).invalid && text is None ==> final(self)@ == (VisitorView { invalid: true, ..old(self)@ }),
            !old(self).invalid ==> (text matches Some(t) ==> final(self)@ == put_view(
                old(self)@,
                name@,
                ValueView::Text(t@),
                old(self).fields@.len(),
            )),
    {
        if self.invalid {
            return;
        }
        match text {
            None => self.invalid = true,
            Some(t) => self.put(name, Value::Text(t)),
        }
    }
}

/// Which logger an event goes to.
#[derive(Clone, Copy, Debug, PartialEq, Eq, Structural)]
pub enum Target {
    Default,
    /// The instance at this index of the extra instances.
    Extra(usize),
}

/// The logger an event names with `log_instance`: the default one when it
/// names none or the default instance, else the extra instance of that name;
/// `None` when no instance has that name.
pub fn choose_logger(instance: Option<&str>, default_name: &str, names: &Vec<String>) -> (r: Option<Target>)
    ensures
        match instance {
            None => r == Some(Target::Default),
            Some(n) => if n@ == default_name@ {
                r == Some(Target::Default)
            } else {
                match r {
                    Some(Target::Extra(i)) => i < names@.len() && names@[i as int]@ == n@ && forall|j: int|
                        0 <= j < i ==> (#[trigger] names@[j])@ != n@,
                    Some(Target::Default) => false,
                    None => forall|j: int| 0 <= j < names@.len() ==> (#[trigger] names@[j])@ != n@,
                }
            },
        },
{
    match instance {
        None => Some(Target::Default),
        Some(n) => {
            let key = to_chars(n);
            if same_text(&key, &to_chars(default_name)) {
                return Some(Target::Default);
            }
            match target_destination(names, n) {
                Some(i) => Some(Target::Extra(i)),
                None => None,
            }
        },
    }
}

/// The destination named like the event's target, if declared.
pub fn target_destination(destinations: &Vec<String>, target: &str) -> (r: Option<usize>)
    ensures
        match r {
            Some(i) => i < destinations@.len() && destinations@[i as int]@ == target@ && forall|j: int|
                0 <= j < i ==> (#[trigger] destinations@[j])@ != target@,
            None => forall|j: int| 0 <= j < destinations@.len() ==> (#[trigger] destinations@[j])@ != target@,
        },
{
    let key = to_chars(target);
    let mut i: usize = 0;
    while i < destinations.len()
        invariant
            key@ == target@,
            i <= destinations@.len(),
            forall|j: int| 0 <= j < i ==> (#[trigger] destinations@[j])@ != target@,
        decreases destinations@.len() - i,
    {
        if same_text(&to_chars(destinations[i].as_str()), &key) {
            return Some(i);
        }
        i = i + 1;
    }
    None
}

/// The budget of fields is exceeded (or they are invalid).
pub open spec fn over_budget(m: Map<Seq<char>, ValueView>) -> bool {
    match spec_field_size(entries_of(m)) {
        Err(_) => true,
        Ok(n) => n > FIELD_BYTES,
    }
}

fn over_budget_exec(f: &Fields) -> (r: bool)
    ensures
        r == over_budget(f.map()),
{
    let _ = f.len();
    match field_size(f) {
        Err(_) => true,
        Ok(n) => n > FIELD_BYTES,
    }
}

/// The fields spans pass on, outermost first: each span's fields in turn
/// override the outer ones.
pub open spec fn span_fields(spans: Seq<Option<Map<Seq<char>, ValueView>>>) -> Map<Seq<char>, ValueView>
    decreases spans.len(),
{
    if spans.len() == 0 {
        Map::empty()
    } else {
        match spans.last() {
            Some(m) => span_fields(spans.drop_last()).union_prefer_right(m),
            None => span_fields(spans.drop_last()),
        }
    }
}

/// Whether inheriting stops at span `i` (outermost first): an unknown span
/// is invalid, and a budget exceeded once its fields are added is too large.
pub open spec fn inherit_view(spans: Seq<Option<Map<Seq<char>, ValueView>>>) -> Result<Map<Seq<char>, ValueView>, Refusal>
    decreases spans.len(),
{
    if spans.len() > MAX_DEPTH {
        Err(Refusal::TooLarge)
    } else if spans.len() == 0 {
        Ok(Map::empty())
    } else {
        match inherit_view(spans.drop_last()) {
            Err(e) => Err(e),
            Ok(acc) => match spans.last() {
                None => Err(Refusal::Invalid),
                Some(m) => if over_budget(acc.union_prefer_right(m)) {
                    Err(Refusal::TooLarge)
                } else {
                    Ok(acc.union_prefer_right(m))
                },
            },
        }
    }
}

pub open spec fn spans_view(spans: Seq<Option<Fields>>) -> Seq<Option<Map<Seq<char>, ValueView>>> {
    spans.map_values(
        |s: Option<Fields>|
            match s {
                Some(f) => Some(f.map()),
                None => None,
            },
    )
}

proof fn lemma_inherit_prefix(spans: Seq<Option<Map<Seq<char>, ValueView>>>, i: int)
    requires
        0 <= i < spans.len(),
        spans.len() <= MAX_DEPTH,
        inherit_view(spans.take(i + 1)) is Err,
    ensures
        inherit_view(spans) == inherit_view(spans.take(i + 1)),
    decreases spans.len() - i,
{
    if i + 1 < spans.len() {
        assert(spans.take(i + 2).drop_last() =~= spans.take(i + 1));
        lemma_inherit_prefix(spans, i + 1);
    } else {
        assert(spans.take(i + 1) =~= spans);
    }
}

/// The fields an event inherits from its spans, outermost first.
pub fn inherit(spans: &Vec<Option<Fields>>) -> (r: Result<Fields, Refusal>)
    ensures
        match r {
            Ok(f) => inherit_view(spans_view(spans@)) == Ok::<Map<Seq<char>, ValueView>, Refusal>(f.map()),
            Err(e) => inherit_view(spans_view(spans@)) == Err::<Map<Seq<char>, ValueView>, Refusal>(e),
        },
{
    let ghost sv = spans_view(spans@);
    if spans.len() > MAX_DEPTH {
        return Err(Refusal::TooLarge);
    }
    let mut fields = Fields::new();
    let mut i: usize = 0;
    assert(sv.take(0) =~= Seq::<Option<Map<Seq<char>, ValueView>>>::empty());
    assert(fields.map() =~= Map::<Seq<char>, ValueView>::empty());
    while i < spans.len()
        invariant
            sv == spans_view(spans@),
            spans@.len() <= MAX_DEPTH,
            i <= spans@.len(),
            inherit_view(sv.take(i as int)) == Ok::<Map<Seq<char>, ValueView>, Refusal>(fields.map()),
        decreases spans@.len() - i,
    {
        assert(sv.take(i + 1).drop_last() =~= sv.take(i as int));
        assert(sv.take(i + 1).last() == sv[i as int]);
        match &spans[i] {
            None => {
                proof {
                    lemma_inherit_prefix(sv, i as int);
                }
                return Err(Refusal::Invalid);
            },
            Some(span) => {
                fields.extend(span);
                if over_budget_exec(&fields) {
                    proof {
                        lemma_inherit_prefix(sv, i as int);
                    }
                    return Err(Refusal::TooLarge);
                }
            },
        }
        i = i + 1;
    }
    assert(sv.take(spans@.len() as int) =~= sv);
    Ok(fields)
}

/// A span records more fields: they override its own; `false` when the
/// budget is then exceeded (the span is then dropped by the caller).
pub fn span_record(fields: &mut Fields, extra: &Fields) -> (r: bool)
    ensures
        final(fields).map() == old(fields).map().union_prefer_right(extra.map()),
        r == !over_budget(final(fields).map()),
{
    fields.extend(extra);
    !over_budget_exec(fields)
}

} // verus!
