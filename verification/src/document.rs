//! A TJSON tree that additionally carries what `Value` deliberately discards:
//! comments and presentation facts (string and key forms, table-ness).
//!
//! Recording is mechanism, normalizing is policy: everything here describes the
//! source; whether a writer honours a fact is decided when writing, never when
//! reading.
use vstd::prelude::*;
use crate::number::Number;
use crate::value::{Value, Entry, Json};

verus! {

/// Where a comment sits horizontally when re-emitted.
#[derive(Clone, Copy, Debug, PartialEq, Eq)]
pub enum Placement {
    /// Pinned to column 0 regardless of the subject's depth.
    Left,
    /// Indented to the level of the thing it comments.
    AtLevel,
}

impl Default for Placement {
    fn default() -> (r: Placement)
        ensures
            r == Placement::AtLevel,
    {
        Placement::AtLevel
    }
}

/// How a bare string's opening quote was written: the invisible space or `_`.
#[derive(Clone, Copy, Debug, PartialEq, Eq)]
pub enum BareForm {
    Plain,
    Marked,
}

/// Which of the three multiline fences a string was written with.
#[derive(Clone, Copy, Debug, PartialEq, Eq)]
pub enum MultilineFlavor {
    /// `` ` ``: body at the value's indent plus two.
    Single,
    /// ` `` `: body lines behind a `| ` margin.
    Double,
    /// ` ``` `: body at column 0, verbatim.
    Triple,
}

/// How a string value was written.
#[derive(Clone, Copy, Debug, PartialEq, Eq)]
pub enum StringForm {
    Bare(BareForm),
    Quoted,
    Multiline(MultilineFlavor),
}

/// How an object key was written.
#[derive(Clone, Copy, Debug, PartialEq, Eq)]
pub enum KeyForm {
    Bare,
    Quoted,
}

/// One full-line comment, attached to the node or entry that followed it in
/// the source (or to the document trailer when nothing followed).
#[derive(Clone, Debug, PartialEq, Eq)]
pub struct Comment {
    text: String,
    placement: Placement,
}

/// A comment as the parser saw it: its column and its text from `//` on.
pub struct RawComment {
    pub col: usize,
    pub text: Vec<char>,
}

/// `text` as stored: with a leading `//`, adding `// ` when absent.
pub open spec fn comment_text(text: Seq<char>) -> Seq<char> {
    if text.len() >= 2 && text[0] == '/' && text[1] == '/' {
        text
    } else {
        seq!['/', '/', ' '] + text
    }
}

/// `Left` iff the comment was at the margin and its subject is not.
pub open spec fn classify_placement(col: nat, subject_level: nat) -> Placement {
    if col == 0 && subject_level > 0 { Placement::Left } else { Placement::AtLevel }
}

impl Comment {
    pub closed spec fn text_spec(self) -> Seq<char> {
        self.text@
    }

    pub closed spec fn placement_spec(self) -> Placement {
        self.placement
    }

    /// Create an `AtLevel` comment. `text` may be given with or without the
    /// leading `//`; it is stored with one.
    pub fn new(text: String) -> (r: Comment)
        ensures
            r.text_spec() == comment_text(text@),
            r.placement_spec() == Placement::AtLevel,
    {
        let c = crate::text::to_chars(text.as_str());
        if c.len() >= 2 && c[0] == '/' && c[1] == '/' {
            Comment { text, placement: Placement::AtLevel }
        } else {
            let mut s = String::new();
            crate::text::push_char(&mut s, '/');
            crate::text::push_char(&mut s, '/');
            crate::text::push_char(&mut s, ' ');
            crate::text::push_str(&mut s, c.as_slice());
            assert(s@ =~= seq!['/', '/', ' '] + text@);
            Comment { text: s, placement: Placement::AtLevel }
        }
    }

    /// The same comment with another placement.
    pub fn with_placement(self, placement: Placement) -> (r: Comment)
        ensures
            r.text_spec() == self.text_spec(),
            r.placement_spec() == placement,
    {
        Comment { text: self.text, placement }
    }

    /// The comment text as written, including the leading `//`.
    pub fn text(&self) -> (r: &str)
        ensures
            r@ == self.text_spec(),
    {
        self.text.as_str()
    }

    pub fn placement(&self) -> (r: Placement)
        ensures
            r == self.placement_spec(),
    {
        self.placement
    }

    /// Classify a raw comment against the level of the thing it comments.
    pub fn classify(raw: RawComment, subject_level: usize) -> (r: Comment)
        ensures
            r.text_spec() == raw.text@,
            r.placement_spec() == classify_placement(raw.col as nat, subject_level as nat),
    {
        let placement = if raw.col == 0 && subject_level > 0 { Placement::Left } else { Placement::AtLevel };
        Comment { text: crate::text::to_string(raw.text.as_slice()), placement }
    }

    /// Classify every raw comment of a run against one subject level.
    pub fn classify_all(raw: Vec<RawComment>, subject_level: usize) -> (r: Vec<Comment>)
        ensures
            r@.len() == raw@.len(),
            forall|i: int| 0 <= i < r@.len() ==> (#[trigger] r@[i]).text_spec() == raw@[i].text@
                && r@[i].placement_spec() == classify_placement(raw@[i].col as nat, subject_level as nat),
    {
        let mut out: Vec<Comment> = Vec::new();
        let mut raw = raw;
        let ghost orig = raw@;
        let mut rev: Vec<RawComment> = Vec::new();
        while raw.len() > 0
            invariant
                raw@.len() + rev@.len() == orig.len(),
                forall|i: int| 0 <= i < raw@.len() ==> raw@[i] == orig[i],
                forall|i: int| 0 <= i < rev@.len() ==> rev@[i] == orig[orig.len() - 1 - i],
            decreases raw.len(),
        {
            let c = raw.pop().unwrap();
            rev.push(c);
        }
        while rev.len() > 0
            invariant
                out@.len() + rev@.len() == orig.len(),
                forall|i: int| 0 <= i < rev@.len() ==> rev@[i] == orig[orig.len() - 1 - i],
                forall|i: int| 0 <= i < out@.len() ==> (#[trigger] out@[i]).text_spec() == orig[i].text@
                    && out@[i].placement_spec() == classify_placement(orig[i].col as nat, subject_level as nat),
            decreases rev.len(),
        {
            let c = rev.pop().unwrap();
            out.push(Comment::classify(c, subject_level));
        }
        out
    }
}

#[derive(Debug, PartialEq)]
enum DocKind {
    Null,
    Bool(bool),
    Number(Number),
    String(String),
    Array(Vec<DocNode>),
    Object(Vec<DocEntry>),
}

/// One node of a `Document`: a value plus the comments and presentation facts
/// the parser observed for it (or a generator attached to it).
#[derive(Debug, PartialEq)]
pub struct DocNode {
    kind: DocKind,
    comments_before: Vec<Comment>,
    string_form: Option<StringForm>,
    table: Option<bool>,
    trailing_comments: Vec<Comment>,
}

/// One key-value entry of an object node, with the key's form and the
/// comments that preceded the entry.
#[derive(Debug, PartialEq)]
pub struct DocEntry {
    key: String,
    key_form: Option<KeyForm>,
    comments_before: Vec<Comment>,
    value: DocNode,
}

impl DocNode {
    /// The data this node holds, with every comment and fact left out.
    pub closed spec fn data(self) -> Json
        decreases self,
    {
        match self.kind {
            DocKind::Null => Json::Null,
            DocKind::Bool(b) => Json::Bool(b),
            DocKind::Number(n) => Json::Number(n.spelling()),
            DocKind::String(s) => Json::Str(s@),
            DocKind::Array(items) => Json::Array(DocNode::datas(items@)),
            DocKind::Object(entries) => Json::Object(DocNode::entry_datas(entries@)),
        }
    }

    pub closed spec fn datas(s: Seq<DocNode>) -> Seq<Json>
        decreases s,
    {
        if s.len() == 0 {
            Seq::empty()
        } else {
            DocNode::datas(s.drop_last()).push(s.last().data())
        }
    }

    pub closed spec fn entry_datas(s: Seq<DocEntry>) -> Seq<(Seq<char>, Json)>
        decreases s,
    {
        if s.len() == 0 {
            Seq::empty()
        } else {
            DocNode::entry_datas(s.drop_last()).push((s.last().key@, s.last().value.data()))
        }
    }

    /// Appending a node appends its data.
    pub proof fn lemma_datas_push(s: Seq<DocNode>, x: DocNode)
        ensures
            DocNode::datas(s.push(x)) == DocNode::datas(s).push(x.data()),
    {
        assert(s.push(x).drop_last() =~= s);
    }

    /// Appending an entry appends its key and its value's data.
    pub proof fn lemma_entry_datas_push(s: Seq<DocEntry>, e: DocEntry)
        ensures
            DocNode::entry_datas(s.push(e)) == DocNode::entry_datas(s).push((e.key_spec(), e.value_spec().data())),
    {
        assert(s.push(e).drop_last() =~= s);
    }

    /// One datum per node.
    pub proof fn lemma_datas_len(s: Seq<DocNode>)
        ensures
            DocNode::datas(s).len() == s.len(),
        decreases s.len(),
    {
        if s.len() > 0 {
            DocNode::lemma_datas_len(s.drop_last());
        }
    }

    /// One key and datum per entry.
    pub proof fn lemma_entry_datas_len(s: Seq<DocEntry>)
        ensures
            DocNode::entry_datas(s).len() == s.len(),
        decreases s.len(),
    {
        if s.len() > 0 {
            DocNode::lemma_entry_datas_len(s.drop_last());
        }
    }

    /// Replacing an entry by one with the same key and value keeps the data.
    pub proof fn lemma_entry_datas_update(s: Seq<DocEntry>, i: int, e: DocEntry)
        requires
            0 <= i < s.len(),
            e.key_spec() == s[i].key_spec(),
            e.value_spec() == s[i].value_spec(),
        ensures
            DocNode::entry_datas(s.update(i, e)) == DocNode::entry_datas(s),
        decreases s.len(),
    {
        if i < s.len() - 1 {
            DocNode::lemma_entry_datas_update(s.drop_last(), i, e);
            assert(s.update(i, e).drop_last() =~= s.drop_last().update(i, e));
        } else {
            assert(s.update(i, e).drop_last() =~= s.drop_last());
        }
    }

    /// Joining two runs of entries joins their keys and data.
    pub proof fn lemma_entry_datas_append(a: Seq<DocEntry>, b: Seq<DocEntry>)
        ensures
            DocNode::entry_datas(a + b) == DocNode::entry_datas(a) + DocNode::entry_datas(b),
        decreases b.len(),
    {
        if b.len() == 0 {
            assert(a + b =~= a);
            assert(DocNode::entry_datas(a) + DocNode::entry_datas(b) =~= DocNode::entry_datas(a));
        } else {
            let c = b.drop_last();
            DocNode::lemma_entry_datas_append(a, c);
            assert(a + b =~= (a + c).push(b.last()));
            DocNode::lemma_entry_datas_push(a + c, b.last());
            assert(b =~= c.push(b.last()));
            DocNode::lemma_entry_datas_push(c, b.last());
            assert(DocNode::entry_datas(a) + DocNode::entry_datas(c).push((b.last().key_spec(), b.last().value_spec().data()))
                =~= (DocNode::entry_datas(a) + DocNode::entry_datas(c)).push((b.last().key_spec(), b.last().value_spec().data())));
        }
    }

    pub proof fn lemma_datas_empty()
        ensures
            DocNode::datas(Seq::empty()) == Seq::<Json>::empty(),
            DocNode::entry_datas(Seq::empty()) == Seq::<(Seq<char>, Json)>::empty(),
    {
    }

    pub closed spec fn items_spec(self) -> Option<Seq<DocNode>> {
        match self.kind {
            DocKind::Array(items) => Some(items@),
            _ => None,
        }
    }

    pub closed spec fn entries_spec(self) -> Option<Seq<DocEntry>> {
        match self.kind {
            DocKind::Object(entries) => Some(entries@),
            _ => None,
        }
    }

    pub closed spec fn comments_spec(self) -> Seq<Comment> {
        self.comments_before@
    }

    pub closed spec fn trailing_spec(self) -> Seq<Comment> {
        self.trailing_comments@
    }

    pub closed spec fn string_form_spec(self) -> Option<StringForm> {
        self.string_form
    }

    pub closed spec fn table_spec(self) -> Option<bool> {
        self.table
    }

    /// No comments and no recorded facts: the renderer's policies apply.
    pub open spec fn bare_of_facts(self) -> bool {
        &&& self.comments_spec().len() == 0
        &&& self.trailing_spec().len() == 0
        &&& self.string_form_spec() is None
        &&& self.table_spec() is None
    }

    fn from_kind(kind: DocKind) -> (r: DocNode)
        ensures
            r.kind == kind,
            r.bare_of_facts(),
    {
        DocNode {
            kind,
            comments_before: Vec::new(),
            string_form: None,
            table: None,
            trailing_comments: Vec::new(),
        }
    }

    pub fn null() -> (r: DocNode)
        ensures
            r.data() == Json::Null,
            r.bare_of_facts(),
    {
        Self::from_kind(DocKind::Null)
    }

    pub fn bool(value: bool) -> (r: DocNode)
        ensures
            r.data() == Json::Bool(value),
            r.bare_of_facts(),
    {
        Self::from_kind(DocKind::Bool(value))
    }

    pub fn number(value: Number) -> (r: DocNode)
        ensures
            r.data() == Json::Number(value.spelling()),
            r.bare_of_facts(),
    {
        Self::from_kind(DocKind::Number(value))
    }

    pub fn string(value: String) -> (r: DocNode)
        ensures
            r.data() == Json::Str(value@),
            r.bare_of_facts(),
    {
        Self::from_kind(DocKind::String(value))
    }

    pub fn array(items: Vec<DocNode>) -> (r: DocNode)
        ensures
            r.items_spec() == Some(items@),
            r.data() == Json::Array(DocNode::datas(items@)),
            r.bare_of_facts(),
    {
        Self::from_kind(DocKind::Array(items))
    }

    pub fn object(entries: Vec<DocEntry>) -> (r: DocNode)
        ensures
            r.entries_spec() == Some(entries@),
            r.data() == Json::Object(DocNode::entry_datas(entries@)),
            r.bare_of_facts(),
    {
        Self::from_kind(DocKind::Object(entries))
    }

    pub fn is_null(&self) -> (r: bool)
        ensures
            r == (self.data() == Json::Null),
    {
        match self.kind {
            DocKind::Null => true,
            _ => false,
        }
    }

    pub fn as_bool(&self) -> (r: Option<bool>)
        ensures
            r matches Some(b) ==> self.data() == Json::Bool(b),
            r is None <==> !(self.data() is Bool),
    {
        match self.kind {
            DocKind::Bool(b) => Some(b),
            _ => None,
        }
    }

    pub fn as_number(&self) -> (r: Option<&Number>)
        ensures
            r matches Some(n) ==> self.data() == Json::Number(n.spelling()),
            r is None <==> !(self.data() is Number),
    {
        match &self.kind {
            DocKind::Number(n) => Some(n),
            _ => None,
        }
    }

    pub fn as_str(&self) -> (r: Option<&str>)
        ensures
            r matches Some(s) ==> self.data() == Json::Str(s@),
            r is None <==> !(self.data() is Str),
    {
        match &self.kind {
            DocKind::String(s) => Some(s.as_str()),
            _ => None,
        }
    }

    pub fn items(&self) -> (r: Option<&[DocNode]>)
        ensures
            match r {
                Some(items) => self.items_spec() == Some(items@),
                None => self.items_spec() is None,
            },
    {
        match &self.kind {
            DocKind::Array(items) => Some(items.as_slice()),
            _ => None,
        }
    }

    pub fn items_mut(&mut self) -> (r: Option<&mut Vec<DocNode>>)
        ensures
            match r {
                Some(items) => old(self).items_spec() == Some(items@)
                    && final(self).items_spec() == Some(final(items)@)
                    && final(self).comments_spec() == old(self).comments_spec(),
                None => old(self).items_spec() is None,
            },
    {
        match &mut self.kind {
            DocKind::Array(items) => Some(items),
            _ => None,
        }
    }

    pub fn entries(&self) -> (r: Option<&[DocEntry]>)
        ensures
            match r {
                Some(entries) => self.entries_spec() == Some(entries@),
                None => self.entries_spec() is None,
            },
    {
        match &self.kind {
            DocKind::Object(entries) => Some(entries.as_slice()),
            _ => None,
        }
    }

    pub fn entries_mut(&mut self) -> (r: Option<&mut Vec<DocEntry>>)
        ensures
            match r {
                Some(entries) => old(self).entries_spec() == Some(entries@)
                    && final(self).entries_spec() == Some(final(entries)@)
                    && final(self).comments_spec() == old(self).comments_spec(),
                None => old(self).entries_spec() is None,
            },
    {
        match &mut self.kind {
            DocKind::Object(entries) => Some(entries),
            _ => None,
        }
    }

    pub fn comments_before(&self) -> (r: &[Comment])
        ensures
            r@ == self.comments_spec(),
    {
        self.comments_before.as_slice()
    }

    /// Attach one more comment before this node. The data is untouched.
    pub fn push_comment_before(&mut self, comment: Comment)
        ensures
            final(self).comments_spec() == old(self).comments_spec().push(comment),
            final(self).data() == old(self).data(),
            final(self).trailing_spec() == old(self).trailing_spec(),
            final(self).string_form_spec() == old(self).string_form_spec(),
            final(self).table_spec() == old(self).table_spec(),
    {
        self.comments_before.push(comment);
    }

    /// How this string was written, when this node is a string the parser saw
    /// (or a generator expressed an opinion about).
    pub fn string_form(&self) -> (r: Option<StringForm>)
        ensures
            r == self.string_form_spec(),
    {
        self.string_form
    }

    pub fn set_string_form(&mut self, form: Option<StringForm>)
        ensures
            final(self).string_form_spec() == form,
            final(self).data() == old(self).data(),
            final(self).comments_spec() == old(self).comments_spec(),
            final(self).table_spec() == old(self).table_spec(),
    {
        self.string_form = form;
    }

    /// Whether this array was written as a table (`Some(true)`), explicitly
    /// not (`Some(false)`), or carries no opinion (`None`).
    pub fn table(&self) -> (r: Option<bool>)
        ensures
            r == self.table_spec(),
    {
        self.table
    }

    pub fn set_table(&mut self, table: Option<bool>)
        ensures
            final(self).table_spec() == table,
            final(self).data() == old(self).data(),
            final(self).comments_spec() == old(self).comments_spec(),
            final(self).string_form_spec() == old(self).string_form_spec(),
    {
        self.table = table;
    }

    /// Project the plain data out, discarding comments and facts.
    pub fn to_value(&self) -> (r: Value)
        ensures
            r.model() == self.data(),
        decreases self,
    {
        match &self.kind {
            DocKind::Null => Value::Null,
            DocKind::Bool(b) => Value::Bool(*b),
            DocKind::Number(n) => Value::Number(n.duplicate()),
            DocKind::String(s) => Value::String(s.clone()),
            DocKind::Array(items) => {
                let mut out: Vec<Value> = Vec::new();
                let mut i: usize = 0;
                while i < items.len()
                    invariant
                        i <= items.len(),
                        self.kind == DocKind::Array(*items),
                        Value::models(out@) == DocNode::datas(items@.take(i as int)),
                    decreases items.len() - i,
                {
                    proof {
                        vstd::std_specs::vec::axiom_vec_index_decreases(*items, i as int);
                        assert(decreases_to!(*self => (*self).kind));
                        assert(decreases_to!((*self).kind => (*self).kind->Array_0));
                        assert(decreases_to!(*items => items[i as int]));
                        assert(decreases_to!(*self => items[i as int]));
                    }
                    let v = items[i].to_value();
                    let ghost before = out@;
                    out.push(v);
                    proof {
                        assert(out@.drop_last() =~= before);
                        assert(items@.take(i + 1).drop_last() =~= items@.take(i as int));
                    }
                    i += 1;
                }
                assert(items@.take(items.len() as int) =~= items@);
                Value::Array(out)
            }
            DocKind::Object(entries) => {
                let mut out: Vec<Entry> = Vec::new();
                let mut i: usize = 0;
                while i < entries.len()
                    invariant
                        i <= entries.len(),
                        self.kind == DocKind::Object(*entries),
                        Value::entry_models(out@) == DocNode::entry_datas(entries@.take(i as int)),
                    decreases entries.len() - i,
                {
                    proof {
                        vstd::std_specs::vec::axiom_vec_index_decreases(*entries, i as int);
                        assert(decreases_to!(*self => (*self).kind));
                        assert(decreases_to!((*self).kind => (*self).kind->Object_0));
                        assert(decreases_to!(*entries => entries[i as int]));
                        assert(decreases_to!(entries[i as int] => entries[i as int].value));
                        assert(decreases_to!(*self => entries[i as int].value));
                    }
                    let v = entries[i].value.to_value();
                    let ghost before = out@;
                    out.push(Entry { key: entries[i].key.clone(), value: v });
                    proof {
                        assert(out@.drop_last() =~= before);
                        assert(entries@.take(i + 1).drop_last() =~= entries@.take(i as int));
                    }
                    i += 1;
                }
                assert(entries@.take(entries.len() as int) =~= entries@);
                Value::Object(out)
            }
        }
    }

    /// Lift a plain value into a node with no comments and no recorded facts.
    pub fn lift(value: &Value) -> (r: DocNode)
        ensures
            r.data() == value.model(),
            r.bare_of_facts(),
        decreases value,
    {
        match value {
            Value::Null => DocNode::null(),
            Value::Bool(b) => DocNode::bool(*b),
            Value::Number(n) => DocNode::number(n.duplicate()),
            Value::String(s) => DocNode::string(s.clone()),
            Value::Array(items) => {
                let mut out: Vec<DocNode> = Vec::new();
                let mut i: usize = 0;
                while i < items.len()
                    invariant
                        i <= items.len(),
                        *value == Value::Array(*items),
                        DocNode::datas(out@) == Value::models(items@.take(i as int)),
                    decreases items.len() - i,
                {
                    proof {
                        vstd::std_specs::vec::axiom_vec_index_decreases(*items, i as int);
                        assert(decreases_to!(*value => (*value)->Array_0));
                        assert(decreases_to!(*items => items[i as int]));
                        assert(decreases_to!(*value => items[i as int]));
                    }
                    let v = DocNode::lift(&items[i]);
                    let ghost before = out@;
                    out.push(v);
                    proof {
                        assert(out@.drop_last() =~= before);
                        assert(items@.take(i + 1).drop_last() =~= items@.take(i as int));
                    }
                    i += 1;
                }
                assert(items@.take(items.len() as int) =~= items@);
                DocNode::array(out)
            }
            Value::Object(entries) => {
                let mut out: Vec<DocEntry> = Vec::new();
                let mut i: usize = 0;
                while i < entries.len()
                    invariant
                        i <= entries.len(),
                        *value == Value::Object(*entries),
                        DocNode::entry_datas(out@) == Value::entry_models(entries@.take(i as int)),
                    decreases entries.len() - i,
                {
                    proof {
                        vstd::std_specs::vec::axiom_vec_index_decreases(*entries, i as int);
                        assert(decreases_to!(*value => (*value)->Object_0));
                        assert(decreases_to!(*entries => entries[i as int]));
                        assert(decreases_to!(entries[i as int] => entries[i as int].value));
                        assert(decreases_to!(*value => entries[i as int].value));
                    }
                    let v = DocNode::lift(&entries[i].value);
                    let ghost before = out@;
                    out.push(DocEntry::new(entries[i].key.clone(), v));
                    proof {
                        assert(out@.drop_last() =~= before);
                        assert(entries@.take(i + 1).drop_last() =~= entries@.take(i as int));
                    }
                    i += 1;
                }
                assert(entries@.take(entries.len() as int) =~= entries@);
                DocNode::object(out)
            }
        }
    }
}

impl DocEntry {
    pub closed spec fn key_spec(self) -> Seq<char> {
        self.key@
    }

    pub closed spec fn key_form_spec(self) -> Option<KeyForm> {
        self.key_form
    }

    pub closed spec fn comments_spec(self) -> Seq<Comment> {
        self.comments_before@
    }

    pub closed spec fn value_spec(self) -> DocNode {
        self.value
    }

    pub fn new(key: String, value: DocNode) -> (r: DocEntry)
        ensures
            r.key_spec() == key@,
            r.value_spec() == value,
            r.key_form_spec() is None,
            r.comments_spec().len() == 0,
    {
        DocEntry { key, key_form: None, comments_before: Vec::new(), value }
    }

    pub fn key(&self) -> (r: &str)
        ensures
            r@ == self.key_spec(),
    {
        self.key.as_str()
    }

    /// How the key was written, when the parser saw it (or a generator chose).
    pub fn key_form(&self) -> (r: Option<KeyForm>)
        ensures
            r == self.key_form_spec(),
    {
        self.key_form
    }

    pub fn set_key_form(&mut self, form: Option<KeyForm>)
        ensures
            final(self).key_form_spec() == form,
            final(self).key_spec() == old(self).key_spec(),
            final(self).value_spec() == old(self).value_spec(),
            final(self).comments_spec() == old(self).comments_spec(),
    {
        self.key_form = form;
    }

    pub fn comments_before(&self) -> (r: &[Comment])
        ensures
            r@ == self.comments_spec(),
    {
        self.comments_before.as_slice()
    }

    /// Replace the comments before this entry.
    pub(crate) fn set_comments_before(&mut self, comments: Vec<Comment>)
        ensures
            final(self).comments_spec() == comments@,
            final(self).key_spec() == old(self).key_spec(),
            final(self).value_spec() == old(self).value_spec(),
            final(self).key_form_spec() == old(self).key_form_spec(),
    {
        self.comments_before = comments;
    }

    pub fn push_comment_before(&mut self, comment: Comment)
        ensures
            final(self).comments_spec() == old(self).comments_spec().push(comment),
            final(self).key_spec() == old(self).key_spec(),
            final(self).value_spec() == old(self).value_spec(),
            final(self).key_form_spec() == old(self).key_form_spec(),
    {
        self.comments_before.push(comment);
    }

    pub fn value(&self) -> (r: &DocNode)
        ensures
            *r == self.value_spec(),
    {
        &self.value
    }

    pub fn value_mut(&mut self) -> (r: &mut DocNode)
        ensures
            *r == old(self).value_spec(),
            final(self).value_spec() == *final(r),
            final(self).key_spec() == old(self).key_spec(),
            final(self).key_form_spec() == old(self).key_form_spec(),
            final(self).comments_spec() == old(self).comments_spec(),
    {
        &mut self.value
    }
}

/// A parsed or constructed TJSON document: a value-shaped tree whose nodes
/// carry comments and presentation facts.
#[derive(Debug, PartialEq)]
pub struct Document {
    root: DocNode,
}

impl Document {
    pub closed spec fn root_spec(self) -> DocNode {
        self.root
    }

    /// The data of the whole document.
    pub open spec fn data(self) -> Json {
        self.root_spec().data()
    }

    pub fn new(root: DocNode) -> (r: Document)
        ensures
            r.root_spec() == root,
    {
        Document { root }
    }

    pub fn root(&self) -> (r: &DocNode)
        ensures
            *r == self.root_spec(),
    {
        &self.root
    }

    pub fn root_mut(&mut self) -> (r: &mut DocNode)
        ensures
            *r == old(self).root_spec(),
            final(self).root_spec() == *final(r),
    {
        &mut self.root
    }

    /// Comments that trailed the document after the last value line.
    pub fn trailing_comments(&self) -> (r: &[Comment])
        ensures
            r@ == self.root_spec().trailing_spec(),
    {
        self.root.trailing_comments.as_slice()
    }

    pub fn push_trailing_comment(&mut self, comment: Comment)
        ensures
            final(self).root_spec().trailing_spec() == old(self).root_spec().trailing_spec().push(comment),
            final(self).data() == old(self).data(),
            final(self).root_spec().comments_spec() == old(self).root_spec().comments_spec(),
    {
        self.root.trailing_comments.push(comment);
    }

    /// Project the plain data out, discarding comments and presentation facts.
    pub fn to_value(&self) -> (r: Value)
        ensures
            r.model() == self.data(),
    {
        self.root.to_value()
    }

    /// Lift a plain value into a document with no comments and no facts.
    pub fn from_value(value: &Value) -> (r: Document)
        ensures
            r.data() == value.model(),
            r.root_spec().bare_of_facts(),
    {
        Document { root: DocNode::lift(value) }
    }
}

/// Lifting a value into a document and projecting it back out gives the same
/// data: `Document::from_value(v).to_value()` holds exactly what `v` holds,
/// because `from_value` keeps the data and `to_value` keeps the data.
pub proof fn law_projection_undoes_lift(v: Value, lifted: Document, projected: Value)
    requires
        lifted.data() == v.model(),
        projected.model() == lifted.data(),
    ensures
        projected.model() == v.model(),
{
}

} // verus!
