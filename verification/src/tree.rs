//! The settings tree: a document owning an arena of nodes, and
//! validity-checked node handles.
//!
//! All nodes live in a single arena owned by the [`Config`].  A
//! [`Setting`] is a capability handle (an arena index); every operation
//! checks the handle against the current tree, so that use of a removed
//! node is a reported error rather than undefined behaviour.  Removal
//! marks the removed node dead and detaches it; handles into the removed
//! subtree are recognised as stale by walking parent links.

use vstd::prelude::*;

use crate::text::is_float_lit;
use crate::text::is_name;
use crate::types::Format;
use crate::types::LibType;
use crate::types::LibconfigError;
use crate::types::Value;
use crate::types::ValueV;
use crate::types::read_bool_v;
use crate::types::read_float_v;
use crate::types::read_i32_v;
use crate::types::read_i64_v;
use crate::types::read_str_v;
use crate::types::default_value_v;

verus! {

/// A payload the tree may store: float text must be a literal the
/// grammar can read back.
pub(crate) open spec fn value_ok(v: Value) -> bool {
    match v {
        Value::FloatVal(t) => is_float_lit(t@),
        _ => true,
    }
}

/// One arena slot.  Slots are never reused: a removed node's slot stays
/// behind, marked dead, so that stale handles remain detectable.
pub(crate) struct Slot {
    /// False once the node has been removed.
    pub live: bool,
    /// Kind tag; fixed at creation.
    pub kind: LibType,
    /// Name; `None` for the root and for array/list elements.
    pub name: Option<String>,
    /// Arena index of the parent; `None` only for the root.
    pub parent: Option<usize>,
    /// Position among the siblings; `None` only for the root.
    pub pos: Option<usize>,
    /// Arena indices of the children, in sibling order.
    pub children: Vec<usize>,
    /// Scalar payload; `None` exactly for aggregate nodes.
    pub value: Option<Value>,
    /// Display hint for integer serialization.
    pub fmt: Format,
    /// Distance from the root; drives termination of parent walks.
    pub depth: Ghost<nat>,
}

/// A validity-checked handle to a node of a [`Config`]'s tree.
#[derive(Clone, Copy, Debug, PartialEq, Eq, Structural)]
pub struct Setting {
    pub(crate) idx: usize,
}

/// A settings document: the owner of the node arena, the include
/// directory used when resolving include directives, and the parser
/// option flags.
pub struct Config {
    pub(crate) slots: Vec<Slot>,
    pub(crate) include_dir: Option<String>,
    pub(crate) options: u32,
}

/// Link conditions for child `k` of live slot `i`.
pub(crate) open spec fn child_wf(ss: Seq<Slot>, i: int, k: int) -> bool {
    let c = ss[i].children@[k] as int;
    &&& 0 <= c < ss.len()
    &&& ss[c].live
    &&& ss[c].parent == Some(i as usize)
    &&& ss[c].pos == Some(k as usize)
    &&& ss[c].depth@ == ss[i].depth@ + 1
}

/// Per-slot well-formedness.  Dead slots are unconstrained.
pub(crate) open spec fn slot_wf(ss: Seq<Slot>, i: int) -> bool {
    let s = ss[i];
    s.live ==> {
        &&& s.depth@ < ss.len()
        &&& match s.parent {
            None => i == 0,
            Some(p) => {
                &&& i != 0
                &&& 0 <= p < ss.len()
                &&& ss[p as int].depth@ + 1 == s.depth@
                &&& s.pos is Some
                &&& (ss[p as int].live ==> {
                    &&& (s.pos->0 as int) < ss[p as int].children@.len()
                    &&& ss[p as int].children@[s.pos->0 as int] == i
                })
            },
        }
        &&& (forall|k: int| 0 <= k < s.children@.len() ==> #[trigger] child_wf(ss, i, k))
        &&& (s.kind.spec_is_scalar() ==> {
            &&& s.value is Some
            &&& s.value->0.spec_kind() == s.kind
            &&& value_ok(s.value->0)
            &&& s.children@.len() == 0
            &&& (s.kind != LibType::TypeInt && s.kind != LibType::TypeInt64 ==> s.fmt
                == Format::FormatDefault)
        })
        &&& (s.kind.spec_is_aggregate() ==> s.value is None)
        &&& (s.kind.spec_is_scalar() || s.kind.spec_is_aggregate())
        &&& (s.kind == LibType::TypeGroup ==> {
            &&& (forall|k: int|
                0 <= k < s.children@.len()
                    ==> (#[trigger] ss[s.children@[k] as int].name) is Some && is_name(
                        ss[s.children@[k] as int].name->0@,
                    ))
            &&& (forall|k1: int, k2: int|
                0 <= k1 < s.children@.len() && 0 <= k2 < s.children@.len() && k1 != k2
                    ==> #[trigger] ss[s.children@[k1] as int].name->0@
                        != #[trigger] ss[s.children@[k2] as int].name->0@)
        })
        &&& ((s.kind == LibType::TypeArray || s.kind == LibType::TypeList) ==> forall|k: int|
            0 <= k < s.children@.len() ==> (#[trigger] ss[s.children@[k] as int].name) is None)
        &&& (s.kind == LibType::TypeArray ==> forall|k1: int, k2: int|
            0 <= k1 < s.children@.len() && 0 <= k2 < s.children@.len()
                ==> (#[trigger] ss[s.children@[k1] as int].kind)
                    == (#[trigger] ss[s.children@[k2] as int].kind)
                    && ss[s.children@[k1] as int].kind.spec_is_scalar())
    }
}

/// Well-formedness of a whole arena: one live, unnamed group root at
/// slot 0, and every slot well-formed.
pub(crate) open spec fn slots_wf(ss: Seq<Slot>) -> bool {
    &&& ss.len() >= 1
    &&& ss[0].live
    &&& ss[0].parent is None
    &&& ss[0].name is None
    &&& ss[0].pos is None
    &&& ss[0].kind == LibType::TypeGroup
    &&& ss[0].depth@ == 0
    &&& forall|i: int| 0 <= i < ss.len() ==> #[trigger] slot_wf(ss, i)
}

/// A slot is attached when it is live and every ancestor up to the
/// root is live: exactly the nodes still part of the document.
pub(crate) open spec fn attached_in(ss: Seq<Slot>, i: int) -> bool
    decreases ss[i].depth@,
    when slots_wf(ss) && 0 <= i < ss.len()
{
    &&& ss[i].live
    &&& match ss[i].parent {
        None => i == 0,
        Some(p) => {
            &&& 0 <= (p as int) < ss.len()
            &&& ss[p as int].depth@ < ss[i].depth@
            &&& attached_in(ss, p as int)
        },
    }
}

impl Config {
    /// Arena size.
    pub(crate) open spec fn n(self) -> int {
        self.slots@.len() as int
    }

    /// The slot at index `i`.
    pub(crate) open spec fn at(self, i: int) -> Slot {
        self.slots@[i]
    }

    /// Well-formedness of the document.  Established by the
    /// constructors and preserved by every operation.
    pub closed spec fn wf(self) -> bool {
        slots_wf(self.slots@)
    }

    /// A handle is valid when it points at an attached node.
    pub closed spec fn valid(self, s: Setting) -> bool {
        &&& (s.idx as int) < self.slots@.len()
        &&& attached_in(self.slots@, s.idx as int)
    }

    /// Kind of the node a handle points at.
    pub closed spec fn node_kind(self, s: Setting) -> LibType {
        self.slots@[s.idx as int].kind
    }

    /// Name of the node a handle points at.
    pub closed spec fn node_name(self, s: Setting) -> Option<Seq<char>> {
        match self.slots@[s.idx as int].name {
            Some(n) => Some(n@),
            None => None,
        }
    }

    /// Scalar payload of the node a handle points at.
    pub closed spec fn node_value(self, s: Setting) -> Option<ValueV> {
        match self.slots@[s.idx as int].value {
            Some(v) => Some(v@),
            None => None,
        }
    }

    /// Display hint of the node a handle points at.
    pub closed spec fn node_fmt(self, s: Setting) -> Format {
        self.slots@[s.idx as int].fmt
    }

    /// Position of the node among its siblings; `None` for the root.
    pub closed spec fn node_pos(self, s: Setting) -> Option<usize> {
        self.slots@[s.idx as int].pos
    }

    /// Number of children of the node a handle points at.
    pub closed spec fn node_child_count(self, s: Setting) -> nat {
        self.slots@[s.idx as int].children@.len()
    }

    /// Handle to child `k` of the node `s` points at.
    pub closed spec fn node_child(self, s: Setting, k: int) -> Setting {
        Setting { idx: self.slots@[s.idx as int].children@[k] }
    }

    /// Handle to the parent of the node `s` points at.
    pub closed spec fn node_parent(self, s: Setting) -> Option<Setting> {
        match self.slots@[s.idx as int].parent {
            Some(p) => Some(Setting { idx: p }),
            None => None,
        }
    }

    /// The root handle.
    pub closed spec fn root_handle(self) -> Setting {
        Setting { idx: 0 }
    }

    /// The model of the whole document: the named raw trees of the
    /// root's children, in order.
    pub closed spec fn doc_view(self) -> Seq<(Seq<char>, crate::parse::RawV)> {
        entry_rawvs(self.slots@, self.slots@[0].children@, 0)
    }

    /// The dotted path from the root down to the node `s` points at:
    /// named nodes render their name, positional nodes their decimal
    /// position; the root renders as the empty text.
    pub closed spec fn node_path(self, s: Setting) -> Seq<char> {
        spec_path(self.slots@, s.idx as int)
    }

    /// Both documents hold the very same tree.
    pub closed spec fn same_tree(self, other: Config) -> bool {
        self.slots@ == other.slots@
    }

    /// `self` is `other` with at most the payload (value and display
    /// hint) of the node `s` replaced: same nodes, same structure,
    /// same names, same options and include directory.
    pub closed spec fn same_except_payload(self, other: Config, s: Setting) -> bool {
        &&& eq_except_payload(other.slots@, self.slots@, s.idx as int)
        &&& self.include_dir == other.include_dir
        &&& self.options == other.options
    }

    /// Children of an attached node are attached.
    pub(crate) proof fn lemma_child_attached(self, i: int, k: int)
        requires
            self.wf(),
            0 <= i < self.n(),
            attached_in(self.slots@, i),
            0 <= k < self.at(i).children@.len(),
        ensures
            attached_in(self.slots@, self.at(i).children@[k] as int),
    {
        let ss = self.slots@;
        vstd::std_specs::vec::axiom_spec_len(&self.slots);
        assert(slot_wf(ss, i));
        assert(child_wf(ss, i, k));
        let c = ss[i].children@[k] as int;
        assert(ss[c].live);
        assert(ss[c].parent == Some(i as usize));
        assert(ss[c].parent->0 as int == i);
        assert(ss[ss[c].parent->0 as int].depth@ < ss[c].depth@);
        assert(attached_in(ss, ss[c].parent->0 as int));
        assert(attached_in(ss, c));
    }

    /// A fresh, empty document: a lone group root, no include
    /// directory, zeroed options.
    pub fn new() -> (cfg: Config)
        ensures
            cfg.wf(),
            cfg.node_child_count(cfg.root_handle()) == 0,
            cfg.include_dir_view() is None,
            cfg.options_view() == 0u32,
    {
        let root = Slot {
            live: true,
            kind: LibType::TypeGroup,
            name: None,
            parent: None,
            pos: None,
            children: Vec::new(),
            value: None,
            fmt: Format::FormatDefault,
            depth: Ghost(0),
        };
        let mut slots: Vec<Slot> = Vec::new();
        slots.push(root);
        let cfg = Config { slots, include_dir: None, options: 0 };
        assert forall|i: int| 0 <= i < cfg.slots@.len() implies #[trigger] slot_wf(
            cfg.slots@,
            i,
        ) by {
            assert(cfg.slots@[i].children@.len() == 0);
        }
        cfg
    }

    /// The include directory, as configured.
    pub closed spec fn include_dir_view(self) -> Option<Seq<char>> {
        match self.include_dir {
            Some(d) => Some(d@),
            None => None,
        }
    }

    /// The option flags, as configured.
    pub closed spec fn options_view(self) -> u32 {
        self.options
    }

    /// Handle to the root node.  The root is never removable, so the
    /// returned handle is always valid.
    pub fn get_root(&self) -> (s: Setting)
        requires
            self.wf(),
        ensures
            s == self.root_handle(),
            self.valid(s),
    {
        Setting { idx: 0 }
    }

    /// Directory against which include directives of subsequently
    /// parsed text are resolved.
    pub fn set_include_path(&mut self, path: &str)
        requires
            old(self).wf(),
        ensures
            final(self).wf(),
            final(self).include_dir_view() == Some(path@),
            final(self).same_tree(*old(self)),
            final(self).options_view() == old(self).options_view(),
    {
        self.include_dir = Some(path.to_owned());
    }

    /// The configured include directory, if any.
    pub fn get_include_path(&self) -> (r: Option<String>)
        ensures
            match r {
                Some(d) => self.include_dir_view() == Some(d@),
                None => self.include_dir_view() is None,
            },
    {
        match &self.include_dir {
            Some(d) => Some(d.clone()),
            None => None,
        }
    }

    /// Replaces the parser option flags.
    pub fn set_options(&mut self, options: u32)
        requires
            old(self).wf(),
        ensures
            final(self).wf(),
            final(self).options_view() == options,
            final(self).same_tree(*old(self)),
            final(self).include_dir_view() == old(self).include_dir_view(),
    {
        self.options = options;
    }

    /// The parser option flags.
    pub fn get_options(&self) -> (r: u32)
        ensures
            r == self.options_view(),
    {
        self.options
    }

    /// Whether the node `i` is attached: live, with every ancestor live.
    pub(crate) fn is_attached(&self, i: usize) -> (r: bool)
        requires
            self.wf(),
            (i as int) < self.n(),
        ensures
            r == attached_in(self.slots@, i as int),
        decreases self.slots@[i as int].depth@,
    {
        let s = &self.slots[i];
        if !s.live {
            return false;
        }
        assert(slot_wf(self.slots@, i as int));
        match s.parent {
            None => i == 0,
            Some(p) => self.is_attached(p),
        }
    }

    /// Whether a handle is still valid for this document.
    pub fn is_valid(&self, s: Setting) -> (r: bool)
        requires
            self.wf(),
        ensures
            r == self.valid(s),
    {
        s.idx < self.slots.len() && self.is_attached(s.idx)
    }

    /// Replaces the document's settings with those parsed from the
    /// given configuration text.  On malformed text the document is
    /// left untouched and a syntax error is reported.
    pub fn read_str(&mut self, text: &str) -> (r: Result<(), LibconfigError>)
        requires
            old(self).wf(),
        ensures
            final(self).wf(),
            crate::parse::parse_doc(text@) is None ==> r == Err::<(), LibconfigError>(
                LibconfigError::SyntaxError { line: 0, col: 0 },
            ) && *final(self) == *old(self),
            crate::parse::parse_doc(text@) is Some ==> r == Ok::<(), LibconfigError>(()) && final(self).doc_view() == crate::parse::parse_doc(text@)->0 && final(self).include_dir_view()
                == old(self).include_dir_view() && final(self).options_view() == old(self).options_view(),
    {
        let chars = crate::text::str_to_chars(text);
        let parsed = crate::parse::parse_doc_at(&chars);
        match parsed {
            None => Err(LibconfigError::SyntaxError { line: 0, col: 0 }),
            Some(entries) => {
                let ghost es = crate::parse::parse_doc(text@)->0;
                proof {
                    crate::parse::lemma_sp_bounds(text@, 0);
                    crate::parse::lemma_p_entries_ok(
                        text@,
                        crate::parse::sp(text@, 0),
                        crate::parse::fuel_for(text@.len()),
                    );
                    crate::parse::lemma_entries_ok(es);
                }
                let root = Slot {
                    live: true,
                    kind: LibType::TypeGroup,
                    name: None,
                    parent: None,
                    pos: None,
                    children: Vec::new(),
                    value: None,
                    fmt: Format::FormatDefault,
                    depth: Ghost(0),
                };
                let mut slots: Vec<Slot> = Vec::new();
                slots.push(root);
                self.slots = slots;
                proof {
                    let ss = self.slots@;
                    assert(links_ok(ss)) by {
                        assert(forall|j: int|
                            0 <= j < ss.len() && (#[trigger] ss[j]).live ==> ss[j].depth@
                                < ss.len());
                        assert(forall|j: int, k: int|
                            #![trigger ss[j].children@[k]]
                            0 <= j < ss.len() && ss[j].live && 0 <= k < ss[j].children@.len()
                                ==> child_wf(ss, j, k)) by {
                            assert(ss[0].children@.len() == 0);
                        }
                    }
                }
                build_named_children(self, 0, &entries);
                proof {
                    let ss2 = self.slots@;
                    assert(slots_wf(ss2)) by {
                        assert forall|i: int| 0 <= i < ss2.len() implies #[trigger] slot_wf(
                            ss2,
                            i,
                        ) by {
                            if i == 0 {
                                assert(ss2[0].depth@ < ss2.len());
                                assert forall|k1: int, k2: int|
                                    0 <= k1 < ss2[0].children@.len() && 0 <= k2 < ss2[
                                    0].children@.len() && k1 != k2 implies #[trigger] ss2[ss2[
                                0].children@[k1] as int].name->0@ != #[trigger] ss2[ss2[
                                0].children@[k2] as int].name->0@ by {
                                    assert(ss2[ss2[0].children@[k1] as int].name->0@
                                        == es[k1].0);
                                    assert(ss2[ss2[0].children@[k2] as int].name->0@
                                        == es[k2].0);
                                    assert(es[k1].0 != es[k2].0);
                                }
                                assert forall|k: int|
                                    0 <= k < ss2[0].children@.len() implies (#[trigger] ss2[ss2[
                                0].children@[k] as int].name) is Some && is_name(
                                    ss2[ss2[0].children@[k] as int].name->0@,
                                ) by {
                                    assert(ss2[ss2[0].children@[k] as int].name->0@
                                        == es[k].0);
                                    assert(is_name(es[k].0));
                                }
                            }
                        }
                    }
                    assert(self.doc_view() == es);
                }
                Ok(())
            },
        }
    }

    /// Serializes the document to configuration text: each root
    /// setting as `name = value; `, groups in braces, arrays in
    /// brackets, lists in parentheses, strings quoted and escaped,
    /// integers in decimal or, under the hex display hint, in
    /// hexadecimal.
    pub fn write_str(&self) -> (r: String)
        requires
            self.wf(),
        ensures
            r@ == crate::ser::ser_entries(self.doc_view()),
    {
        let entries = flatten_entries(self, 0);
        let out = crate::ser::ser_doc(&entries);
        crate::text::chars_to_string(&out)
    }

    /// Resolves a dotted path from the root.
    pub fn lookup(&self, path: &str) -> (r: Result<Setting, LibconfigError>)
        requires
            self.wf(),
        ensures
            match self.resolve_spec(self.root_handle(), path@) {
                Some(t) => r == Ok::<Setting, LibconfigError>(t) && self.valid(t),
                None => r == Err::<Setting, LibconfigError>(LibconfigError::NotFound),
            },
    {
        let root = self.get_root();
        root.lookup(self, path)
    }

    /// Whether a path resolves from the root.
    pub fn path_exists(&self, path: &str) -> (r: bool)
        requires
            self.wf(),
        ensures
            r == (self.resolve_spec(self.root_handle(), path@) is Some),
    {
        let root = self.get_root();
        root.path_exists(self, path)
    }

    /// Best-effort boolean read at a path from the root.
    pub fn lookup_bool(&self, path: &str) -> (r: Option<bool>)
        requires
            self.wf(),
        ensures
            match self.resolve_spec(self.root_handle(), path@) {
                Some(t) => match r {
                    Some(b) => self.node_value(t) is Some && read_bool_v(self.node_value(t)->0)
                        == Some(b),
                    None => !(self.node_value(t) is Some && read_bool_v(
                        self.node_value(t)->0,
                    ) is Some),
                },
                None => r is None,
            },
    {
        let root = self.get_root();
        root.lookup_bool(self, path)
    }

    /// Best-effort 32-bit integer read at a path from the root.
    pub fn lookup_i32(&self, path: &str) -> (r: Option<i32>)
        requires
            self.wf(),
        ensures
            match self.resolve_spec(self.root_handle(), path@) {
                Some(t) => match r {
                    Some(x) => self.node_value(t) is Some && read_i32_v(self.node_value(t)->0)
                        == Some(x as int),
                    None => !(self.node_value(t) is Some && read_i32_v(
                        self.node_value(t)->0,
                    ) is Some),
                },
                None => r is None,
            },
    {
        let root = self.get_root();
        root.lookup_i32(self, path)
    }

    /// Best-effort 64-bit integer read at a path from the root,
    /// widening 32-bit values.
    pub fn lookup_i64(&self, path: &str) -> (r: Option<i64>)
        requires
            self.wf(),
        ensures
            match self.resolve_spec(self.root_handle(), path@) {
                Some(t) => match r {
                    Some(x) => self.node_value(t) is Some && read_i64_v(self.node_value(t)->0)
                        == Some(x as int),
                    None => !(self.node_value(t) is Some && read_i64_v(
                        self.node_value(t)->0,
                    ) is Some),
                },
                None => r is None,
            },
    {
        let root = self.get_root();
        root.lookup_i64(self, path)
    }

    /// Best-effort string read at a path from the root.
    pub fn lookup_string(&self, path: &str) -> (r: Option<String>)
        requires
            self.wf(),
        ensures
            match self.resolve_spec(self.root_handle(), path@) {
                Some(t) => match r {
                    Some(s) => self.node_value(t) is Some && read_str_v(self.node_value(t)->0)
                        == Some(s@),
                    None => !(self.node_value(t) is Some && read_str_v(
                        self.node_value(t)->0,
                    ) is Some),
                },
                None => r is None,
            },
    {
        let root = self.get_root();
        root.lookup_string(self, path)
    }

    /// Best-effort float read at a path from the root, as the stored
    /// literal text.
    pub fn lookup_float_text(&self, path: &str) -> (r: Option<String>)
        requires
            self.wf(),
        ensures
            match self.resolve_spec(self.root_handle(), path@) {
                Some(t) => match r {
                    Some(s) => self.node_value(t) is Some && read_float_v(self.node_value(t)->0)
                        == Some(s@),
                    None => !(self.node_value(t) is Some && read_float_v(
                        self.node_value(t)->0,
                    ) is Some),
                },
                None => r is None,
            },
    {
        let root = self.get_root();
        root.lookup_float_text(self, path)
    }
}

/// The two arenas agree on every slot except that slot `i`'s payload
/// (value and display hint) may differ.
pub(crate) open spec fn eq_except_payload(ss1: Seq<Slot>, ss2: Seq<Slot>, i: int) -> bool {
    &&& ss2.len() == ss1.len()
    &&& (forall|j: int| 0 <= j < ss1.len() && j != i ==> ss2[j] == ss1[j])
    &&& ss2[i].live == ss1[i].live
    &&& ss2[i].kind == ss1[i].kind
    &&& ss2[i].name == ss1[i].name
    &&& ss2[i].parent == ss1[i].parent
    &&& ss2[i].pos == ss1[i].pos
    &&& ss2[i].children == ss1[i].children
    &&& ss2[i].depth == ss1[i].depth
}

/// Attachment is decided by the `live`, `parent` and `depth` fields
/// alone, so arenas agreeing on those over the shorter one's slots
/// agree on its attachment.
pub(crate) proof fn lemma_attached_congruence(ss1: Seq<Slot>, ss2: Seq<Slot>, j: int)
    requires
        slots_wf(ss1),
        slots_wf(ss2),
        ss2.len() >= ss1.len(),
        forall|k: int|
            0 <= k < ss1.len()
                ==> (#[trigger] ss2[k]).live == ss1[k].live && ss2[k].parent == ss1[k].parent
                && ss2[k].depth == ss1[k].depth,
        0 <= j < ss1.len(),
    ensures
        attached_in(ss2, j) == attached_in(ss1, j),
    decreases ss1[j].depth@,
{
    if ss1[j].live {
        match ss1[j].parent {
            None => {},
            Some(p) => {
                assert(slot_wf(ss1, j));
                lemma_attached_congruence(ss1, ss2, p as int);
            },
        }
    }
}

/// A payload change on one slot preserves well-formedness, provided
/// the new payload still matches the slot's kind.
pub(crate) proof fn lemma_wf_payload_update(ss1: Seq<Slot>, ss2: Seq<Slot>, i: int)
    requires
        slots_wf(ss1),
        0 <= i < ss1.len(),
        eq_except_payload(ss1, ss2, i),
        ss1[i].kind.spec_is_scalar() ==> ss2[i].value is Some && ss2[i].value->0.spec_kind()
            == ss2[i].kind && value_ok(ss2[i].value->0),
        ss1[i].kind.spec_is_scalar() && ss1[i].kind != LibType::TypeInt && ss1[i].kind
            != LibType::TypeInt64 ==> ss2[i].fmt == Format::FormatDefault,
        ss1[i].kind.spec_is_aggregate() ==> ss2[i].value is None,
    ensures
        slots_wf(ss2),
        forall|j: int| 0 <= j < ss1.len() ==> attached_in(ss2, j) == attached_in(ss1, j),
{
    assert forall|j: int| 0 <= j < ss2.len() implies #[trigger] slot_wf(ss2, j) by {
        assert(slot_wf(ss1, j));
        if ss2[j].live {
            assert forall|k: int| 0 <= k < ss2[j].children@.len() implies #[trigger] child_wf(
                ss2,
                j,
                k,
            ) by {
                assert(child_wf(ss1, j, k));
            }
            if ss2[j].kind == LibType::TypeGroup {
                assert forall|k: int| 0 <= k < ss2[j].children@.len() implies (
                #[trigger] ss2[ss2[j].children@[k] as int].name) is Some && is_name(
                    ss2[ss2[j].children@[k] as int].name->0@,
                ) by {
                    assert(child_wf(ss1, j, k));
                    assert(ss1[ss1[j].children@[k] as int].name is Some && is_name(ss1[ss1[
                    j].children@[k] as int].name->0@));
                }
                assert forall|k1: int, k2: int|
                    0 <= k1 < ss2[j].children@.len() && 0 <= k2 < ss2[j].children@.len() && k1
                        != k2 implies #[trigger] ss2[ss2[j].children@[k1] as int].name->0@
                    != #[trigger] ss2[ss2[j].children@[k2] as int].name->0@ by {
                    assert(child_wf(ss1, j, k1));
                    assert(child_wf(ss1, j, k2));
                    assert(ss1[ss1[j].children@[k1] as int].name->0@ != ss1[ss1[j].children@[k2]
                        as int].name->0@);
                }
            }
            if ss2[j].kind == LibType::TypeArray || ss2[j].kind == LibType::TypeList {
                assert forall|k: int| 0 <= k < ss2[j].children@.len() implies (
                #[trigger] ss2[ss2[j].children@[k] as int].name) is None by {
                    assert(child_wf(ss1, j, k));
                    assert(ss1[ss1[j].children@[k] as int].name is None);
                }
            }
            if ss2[j].kind == LibType::TypeArray {
                assert forall|k1: int, k2: int|
                    0 <= k1 < ss2[j].children@.len() && 0 <= k2
                        < ss2[j].children@.len() implies (
                #[trigger] ss2[ss2[j].children@[k1] as int].kind) == (#[trigger] ss2[ss2[j].children@[k2] as int].kind)
                    && ss2[ss2[j].children@[k1] as int].kind.spec_is_scalar() by {
                    assert(child_wf(ss1, j, k1));
                    assert(child_wf(ss1, j, k2));
                    assert(ss1[ss1[j].children@[k1] as int].kind == ss1[ss1[j].children@[k2]
                        as int].kind && ss1[ss1[j].children@[k1] as int].kind.spec_is_scalar());
                }
            }
        }
    }
    assert forall|j: int| 0 <= j < ss1.len() implies attached_in(ss2, j) == attached_in(
        ss1,
        j,
    ) by {
        lemma_attached_congruence(ss1, ss2, j);
    }
}

/// Appending one fresh child slot to an aggregate node preserves
/// well-formedness and attachment.
#[verifier::rlimit(60)]
pub(crate) proof fn lemma_wf_add(ss1: Seq<Slot>, ss2: Seq<Slot>, p: int)
    requires
        slots_wf(ss1),
        0 <= p < ss1.len(),
        ss1[p].live,
        ss1[p].kind.spec_is_aggregate(),
        ss1.len() + 1 <= usize::MAX,
        ss1[p].children@.len() + 1 <= usize::MAX,
        ss2.len() == ss1.len() + 1,
        forall|j: int| 0 <= j < ss1.len() && j != p ==> ss2[j] == ss1[j],
        ss2[p].live == ss1[p].live && ss2[p].kind == ss1[p].kind && ss2[p].name == ss1[p].name
            && ss2[p].parent == ss1[p].parent && ss2[p].pos == ss1[p].pos && ss2[p].value
            == ss1[p].value && ss2[p].fmt == ss1[p].fmt && ss2[p].depth == ss1[p].depth,
        ss2[p].children@ == ss1[p].children@.push(ss1.len() as usize),
        ({
            let nn = ss2[ss1.len() as int];
            &&& nn.live
            &&& nn.parent == Some(p as usize)
            &&& nn.pos == Some(ss1[p].children@.len() as usize)
            &&& nn.children@.len() == 0
            &&& nn.depth@ == ss1[p].depth@ + 1
            &&& (nn.kind.spec_is_scalar() || nn.kind.spec_is_aggregate())
            &&& (nn.kind.spec_is_scalar() ==> nn.value is Some && nn.value->0.spec_kind()
                == nn.kind && value_ok(nn.value->0))
            &&& (nn.kind.spec_is_scalar() && nn.kind != LibType::TypeInt && nn.kind
                != LibType::TypeInt64 ==> nn.fmt == Format::FormatDefault)
            &&& (nn.kind.spec_is_aggregate() ==> nn.value is None)
        }),
        ss1[p].kind == LibType::TypeGroup ==> ss2[ss1.len() as int].name is Some && is_name(
            ss2[ss1.len() as int].name->0@,
        ) && (forall|k: int|
            0 <= k < ss1[p].children@.len()
                ==> #[trigger] ss1[ss1[p].children@[k] as int].name->0@ != ss2[ss1.len()
                as int].name->0@),
        (ss1[p].kind == LibType::TypeArray || ss1[p].kind == LibType::TypeList) ==> ss2[ss1.len()
            as int].name is None,
        ss1[p].kind == LibType::TypeArray ==> ss2[ss1.len() as int].kind.spec_is_scalar() && (
        forall|k: int|
            0 <= k < ss1[p].children@.len() ==> (#[trigger] ss1[ss1[p].children@[k] as int].kind)
                == ss2[ss1.len() as int].kind),
    ensures
        slots_wf(ss2),
        forall|j: int| 0 <= j < ss1.len() ==> attached_in(ss2, j) == attached_in(ss1, j),
        attached_in(ss2, ss1.len() as int) == attached_in(ss1, p),
{
    let n = ss1.len() as int;
    assert(slot_wf(ss1, p));
    assert forall|j: int| 0 <= j < ss2.len() implies #[trigger] slot_wf(ss2, j) by {
        if j == n {
            assert(ss2[j].depth@ < ss2.len());
            assert(ss2[p].children@[ss1[p].children@.len() as int] == n as usize);
        } else {
            assert(slot_wf(ss1, j));
            if ss2[j].live {
                // children links
                assert forall|k: int| 0 <= k < ss2[j].children@.len() implies #[trigger] child_wf(
                    ss2,
                    j,
                    k,
                ) by {
                    if j == p && k == ss1[p].children@.len() {
                        assert(ss2[p].children@[k] == n as usize);
                    } else {
                        assert(child_wf(ss1, j, k));
                        let c = ss1[j].children@[k] as int;
                        assert(ss1[c].depth@ == ss1[j].depth@ + 1);
                        if j == p {
                            assert(ss2[j].children@[k] == ss1[j].children@[k]);
                        }
                        assert(c != p || (ss2[c].live == ss1[c].live && ss2[c].parent
                            == ss1[c].parent && ss2[c].pos == ss1[c].pos && ss2[c].depth
                            == ss1[c].depth));
                    }
                }
                // parent link
                match ss2[j].parent {
                    None => {},
                    Some(q) => {
                        let qi = q as int;
                        assert(ss1[qi].depth@ + 1 == ss1[j].depth@);
                        assert(qi != j);
                        if qi == p {
                            assert(ss2[p].children@[ss2[j].pos->0 as int] == ss1[p].children@[
                                ss1[j].pos->0 as int]);
                        }
                    },
                }
                // child naming and kind rules
                let len2 = ss2[j].children@.len() as int;
                if ss2[j].kind == LibType::TypeGroup {
                    assert forall|k: int| 0 <= k < len2 implies (
                    #[trigger] ss2[ss2[j].children@[k] as int].name) is Some && is_name(
                        ss2[ss2[j].children@[k] as int].name->0@,
                    ) by {
                        if j == p && k == ss1[p].children@.len() {
                        } else {
                            assert(child_wf(ss1, j, k));
                            assert(ss1[ss1[j].children@[k] as int].name is Some && is_name(ss1[
                            ss1[j].children@[k] as int].name->0@));
                            assert(ss1[ss1[j].children@[k] as int].depth@ == ss1[j].depth@ + 1);
                        }
                    }
                    assert forall|k1: int, k2: int|
                        0 <= k1 < len2 && 0 <= k2 < len2 && k1 != k2 implies #[trigger] ss2[ss2[
                        j].children@[k1] as int].name->0@ != #[trigger] ss2[ss2[j].children@[k2]
                        as int].name->0@ by {
                        let old_len = ss1[p].children@.len() as int;
                        if j == p && k1 == old_len {
                            assert(child_wf(ss1, j, k2));
                            assert(ss1[ss1[j].children@[k2] as int].name->0@ != ss2[n].name->0@);
                            assert(ss1[ss1[j].children@[k2] as int].depth@ == ss1[j].depth@ + 1);
                        } else if j == p && k2 == old_len {
                            assert(child_wf(ss1, j, k1));
                            assert(ss1[ss1[j].children@[k1] as int].name->0@ != ss2[n].name->0@);
                            assert(ss1[ss1[j].children@[k1] as int].depth@ == ss1[j].depth@ + 1);
                        } else {
                            assert(child_wf(ss1, j, k1));
                            assert(child_wf(ss1, j, k2));
                            assert(ss1[ss1[j].children@[k1] as int].name->0@ != ss1[ss1[
                            j].children@[k2] as int].name->0@);
                            assert(ss1[ss1[j].children@[k1] as int].depth@ == ss1[j].depth@ + 1);
                            assert(ss1[ss1[j].children@[k2] as int].depth@ == ss1[j].depth@ + 1);
                        }
                    }
                }
                if ss2[j].kind == LibType::TypeArray || ss2[j].kind == LibType::TypeList {
                    assert forall|k: int| 0 <= k < len2 implies (
                    #[trigger] ss2[ss2[j].children@[k] as int].name) is None by {
                        if j == p && k == ss1[p].children@.len() {
                        } else {
                            assert(child_wf(ss1, j, k));
                            assert(ss1[ss1[j].children@[k] as int].name is None);
                            assert(ss1[ss1[j].children@[k] as int].depth@ == ss1[j].depth@ + 1);
                        }
                    }
                }
                if ss2[j].kind == LibType::TypeArray {
                    assert forall|k1: int, k2: int|
                        0 <= k1 < len2 && 0 <= k2 < len2 implies (
                    #[trigger] ss2[ss2[j].children@[k1] as int].kind) == (#[trigger] ss2[ss2[j].children@[k2] as int].kind)
                        && ss2[ss2[j].children@[k1] as int].kind.spec_is_scalar() by {
                        let old_len = ss1[p].children@.len() as int;
                        if 0 <= k1 < len2 {
                            if j == p && k1 == old_len {
                            } else {
                                assert(child_wf(ss1, j, k1));
                                assert(ss1[ss1[j].children@[k1] as int].depth@ == ss1[j].depth@
                                    + 1);
                            }
                        }
                        if 0 <= k2 < len2 {
                            if j == p && k2 == old_len {
                            } else {
                                assert(child_wf(ss1, j, k2));
                                assert(ss1[ss1[j].children@[k2] as int].depth@ == ss1[j].depth@
                                    + 1);
                            }
                        }
                    }
                }
            }
        }
    }
    assert forall|j: int| 0 <= j < ss1.len() implies attached_in(ss2, j) == attached_in(
        ss1,
        j,
    ) by {
        lemma_attached_congruence(ss1, ss2, j);
    }
    lemma_attached_congruence(ss1, ss2, p);
    assert(attached_in(ss2, n) == attached_in(ss2, p));
}

/// All fields of the two slots agree except possibly `pos`.
pub(crate) open spec fn eq_except_pos(a: Slot, b: Slot) -> bool {
    &&& a.live == b.live
    &&& a.kind == b.kind
    &&& a.name == b.name
    &&& a.parent == b.parent
    &&& a.children == b.children
    &&& a.value == b.value
    &&& a.fmt == b.fmt
    &&& a.depth == b.depth
}

/// Node `a` lies on the parent chain of node `i` (including `i`
/// itself).
pub(crate) open spec fn ancestor_in(ss: Seq<Slot>, i: int, a: int) -> bool
    decreases ss[i].depth@,
    when slots_wf(ss) && 0 <= i < ss.len()
{
    ||| i == a
    ||| (ss[i].live && match ss[i].parent {
        None => false,
        Some(q) => {
            &&& 0 <= (q as int) < ss.len()
            &&& ss[q as int].depth@ < ss[i].depth@
            &&& ancestor_in(ss, q as int, a)
        },
    })
}

/// Marking one node dead (all other live, parent and depth fields
/// unchanged) detaches exactly the nodes below it.
pub(crate) proof fn lemma_attached_after_kill(ss1: Seq<Slot>, ss2: Seq<Slot>, c: int, i: int)
    requires
        slots_wf(ss1),
        slots_wf(ss2),
        ss2.len() == ss1.len(),
        0 <= c < ss1.len(),
        ss1[c].live,
        !ss2[c].live,
        forall|j: int|
            0 <= j < ss1.len() && j != c ==> (#[trigger] ss2[j]).live == ss1[j].live,
        forall|j: int|
            0 <= j < ss1.len() ==> (#[trigger] ss2[j]).parent == ss1[j].parent && ss2[j].depth
                == ss1[j].depth,
        0 <= i < ss1.len(),
    ensures
        attached_in(ss2, i) == (attached_in(ss1, i) && !ancestor_in(ss1, i, c)),
    decreases ss1[i].depth@,
{
    if i == c {
    } else {
        if ss1[i].live {
            match ss1[i].parent {
                None => {},
                Some(q) => {
                    assert(slot_wf(ss1, i));
                    lemma_attached_after_kill(ss1, ss2, c, q as int);
                },
            }
        }
    }
}

/// Removing child `k` of aggregate `p` — marking it dead, dropping it
/// from the children and shifting the later siblings' positions down
/// by one — preserves well-formedness.
#[verifier::rlimit(100)]
#[verifier::spinoff_prover]
pub(crate) proof fn lemma_wf_remove(ss1: Seq<Slot>, ss2: Seq<Slot>, p: int, k: int)
    requires
        slots_wf(ss1),
        0 <= p < ss1.len(),
        ss1[p].live,
        ss1[p].kind.spec_is_aggregate(),
        0 <= k < ss1[p].children@.len(),
        ss1[p].children@.len() <= usize::MAX,
        ss1.len() <= usize::MAX,
        ss2.len() == ss1.len(),
        // the removed child is dead, otherwise untouched
        ({
            let c = ss1[p].children@[k] as int;
            &&& !ss2[c].live
            &&& ss2[c].kind == ss1[c].kind && ss2[c].name == ss1[c].name && ss2[c].parent
                == ss1[c].parent && ss2[c].pos == ss1[c].pos && ss2[c].children
                == ss1[c].children && ss2[c].value == ss1[c].value && ss2[c].fmt == ss1[c].fmt
                && ss2[c].depth == ss1[c].depth
        }),
        // the parent lost exactly that child
        ss2[p].children@ == ss1[p].children@.remove(k),
        ss2[p].live == ss1[p].live && ss2[p].kind == ss1[p].kind && ss2[p].name == ss1[p].name
            && ss2[p].parent == ss1[p].parent && ss2[p].pos == ss1[p].pos && ss2[p].value
            == ss1[p].value && ss2[p].fmt == ss1[p].fmt && ss2[p].depth == ss1[p].depth,
        // later siblings moved one position down
        forall|m: int|
            k <= m < ss2[p].children@.len() ==> eq_except_pos(
                #[trigger] ss2[ss2[p].children@[m] as int],
                ss1[ss2[p].children@[m] as int],
            ) && ss2[ss2[p].children@[m] as int].pos == Some(m as usize),
        // nothing else changed
        forall|i: int|
            0 <= i < ss1.len() && i != ss1[p].children@[k] as int && i != p && !(exists|m: int|
                k <= m < ss2[p].children@.len() && ss2[p].children@[m] == i) ==> #[trigger] ss2[i]
                == ss1[i],
    ensures
        slots_wf(ss2),
{
    let c = ss1[p].children@[k] as int;
    let ch1 = ss1[p].children@;
    let ch2 = ss2[p].children@;
    assert(slot_wf(ss1, p));
    assert(child_wf(ss1, p, k));
    // the children of p are pairwise distinct (their positions differ)
    assert forall|m1: int, m2: int|
        0 <= m1 < ch1.len() && 0 <= m2 < ch1.len() && m1 != m2 implies ch1[m1] != ch1[m2] by {
        assert(child_wf(ss1, p, m1));
        assert(child_wf(ss1, p, m2));
    }
    // siblings, the parent and the removed child are distinct slots
    assert forall|m: int| 0 <= m < ch1.len() implies ch1[m] as int != p by {
        assert(child_wf(ss1, p, m));
    }
    // the root slot keeps its shape
    assert(c != 0) by {
        assert(slot_wf(ss1, c));
    }
    assert(ss2[0].live && ss2[0].parent is None && ss2[0].name is None && ss2[0].pos is None
        && ss2[0].kind == LibType::TypeGroup && ss2[0].depth@ == 0) by {
        if p != 0 {
            assert forall|mm: int| k <= mm < ch2.len() implies ch2[mm] != 0usize by {
                assert(ch2[mm] == ch1[mm + 1]);
                assert(child_wf(ss1, p, mm + 1));
                assert(slot_wf(ss1, ch1[mm + 1] as int));
            }
            assert(ss2[0] == ss1[0]);
        }
    }
    assert forall|j: int| 0 <= j < ss2.len() implies #[trigger] slot_wf(ss2, j) by {
        assert(slot_wf(ss1, j));
        if ss2[j].live {
            // relate slot j in ss2 to slot j in ss1
            assert(j != c);
            let jslot1 = ss1[j];
            assert(ss2[j].kind == jslot1.kind && ss2[j].name == jslot1.name && ss2[j].parent
                == jslot1.parent && ss2[j].depth == jslot1.depth && ss2[j].value == jslot1.value
                && jslot1.live) by {
                if j != p && !(exists|m: int| k <= m < ch2.len() && ch2[m] == j) {
                    assert(ss2[j] == ss1[j]);
                }
            }
            if j == p {
                // children links of the parent
                assert forall|m: int| 0 <= m < ch2.len() implies #[trigger] child_wf(
                    ss2,
                    p,
                    m,
                ) by {
                    if m < k {
                        assert(ch2[m] == ch1[m]);
                        assert(child_wf(ss1, p, m));
                        let x = ch1[m] as int;
                        assert(ch1[m] != ch1[k]);
                        assert(!(exists|mm: int| k <= mm < ch2.len() && ch2[mm] == x)) by {
                            assert forall|mm: int|
                                k <= mm < ch2.len() implies ch2[mm] != x as usize by {
                                assert(ch2[mm] == ch1[mm + 1]);
                            }
                        }
                        assert(ss2[x] == ss1[x]);
                    } else {
                        assert(ch2[m] == ch1[m + 1]);
                        assert(child_wf(ss1, p, m + 1));
                        assert(eq_except_pos(ss2[ch2[m] as int], ss1[ch2[m] as int])
                            && ss2[ch2[m] as int].pos == Some(m as usize));
                    }
                }
                // names and kinds of the remaining children
                if ss2[p].kind == LibType::TypeGroup {
                    assert forall|m: int| 0 <= m < ch2.len() implies (
                    #[trigger] ss2[ch2[m] as int].name) is Some && is_name(
                        ss2[ch2[m] as int].name->0@,
                    ) by {
                        let m1 = if m < k {
                            m
                        } else {
                            m + 1
                        };
                        assert(ch2[m] == ch1[m1]);
                        assert(child_wf(ss1, p, m1));
                        assert(ss1[ch1[m1] as int].name is Some && is_name(
                            ss1[ch1[m1] as int].name->0@,
                        ));
                        assert(ss2[ch2[m] as int].name == ss1[ch1[m1] as int].name) by {
                            if m < k {
                                let x = ch1[m] as int;
                                assert forall|mm: int|
                                    k <= mm < ch2.len() implies ch2[mm] != x as usize by {
                                    assert(ch2[mm] == ch1[mm + 1]);
                                }
                                assert(ss2[x] == ss1[x]);
                            }
                        }
                    }
                    assert forall|m1: int, m2: int|
                        0 <= m1 < ch2.len() && 0 <= m2 < ch2.len() && m1 != m2 implies #[trigger] ss2[ch2[m1] as int].name->0@ != #[trigger] ss2[ch2[m2] as int].name->0@ by {
                        let o1 = if m1 < k {
                            m1
                        } else {
                            m1 + 1
                        };
                        let o2 = if m2 < k {
                            m2
                        } else {
                            m2 + 1
                        };
                        assert(ch2[m1] == ch1[o1] && ch2[m2] == ch1[o2]);
                        assert(child_wf(ss1, p, o1));
                        assert(child_wf(ss1, p, o2));
                        assert(ss1[ch1[o1] as int].name->0@ != ss1[ch1[o2] as int].name->0@);
                        assert(ss2[ch2[m1] as int].name == ss1[ch1[o1] as int].name
                            && ss2[ch2[m2] as int].name == ss1[ch1[o2] as int].name) by {
                            if m1 < k {
                                let x = ch1[m1] as int;
                                assert forall|mm: int|
                                    k <= mm < ch2.len() implies ch2[mm] != x as usize by {
                                    assert(ch2[mm] == ch1[mm + 1]);
                                }
                                assert(ss2[x] == ss1[x]);
                            }
                            if m2 < k {
                                let x = ch1[m2] as int;
                                assert forall|mm: int|
                                    k <= mm < ch2.len() implies ch2[mm] != x as usize by {
                                    assert(ch2[mm] == ch1[mm + 1]);
                                }
                                assert(ss2[x] == ss1[x]);
                            }
                        }
                    }
                }
                if ss2[p].kind == LibType::TypeArray || ss2[p].kind == LibType::TypeList {
                    assert forall|m: int| 0 <= m < ch2.len() implies (
                    #[trigger] ss2[ch2[m] as int].name) is None by {
                        let m1 = if m < k {
                            m
                        } else {
                            m + 1
                        };
                        assert(ch2[m] == ch1[m1]);
                        assert(child_wf(ss1, p, m1));
                        assert(ss1[ch1[m1] as int].name is None);
                        if m < k {
                            let x = ch1[m] as int;
                            assert forall|mm: int|
                                k <= mm < ch2.len() implies ch2[mm] != x as usize by {
                                assert(ch2[mm] == ch1[mm + 1]);
                            }
                            assert(ss2[x] == ss1[x]);
                        }
                    }
                }
                if ss2[p].kind == LibType::TypeArray {
                    assert forall|m1: int, m2: int|
                        0 <= m1 < ch2.len() && 0 <= m2 < ch2.len() implies (
                    #[trigger] ss2[ch2[m1] as int].kind) == (#[trigger] ss2[ch2[m2] as int].kind)
                        && ss2[ch2[m1] as int].kind.spec_is_scalar() by {
                        let o1 = if m1 < k {
                            m1
                        } else {
                            m1 + 1
                        };
                        let o2 = if m2 < k {
                            m2
                        } else {
                            m2 + 1
                        };
                        if 0 <= m1 < ch2.len() && 0 <= m2 < ch2.len() {
                            assert(ch2[m1] == ch1[o1] && ch2[m2] == ch1[o2]);
                            assert(child_wf(ss1, p, o1));
                            assert(child_wf(ss1, p, o2));
                            assert(ss1[ch1[o1] as int].kind == ss1[ch1[o2] as int].kind && ss1[
                            ch1[o1] as int].kind.spec_is_scalar());
                            if m1 < k {
                                let x = ch1[m1] as int;
                                assert forall|mm: int|
                                    k <= mm < ch2.len() implies ch2[mm] != x as usize by {
                                    assert(ch2[mm] == ch1[mm + 1]);
                                }
                                assert(ss2[x] == ss1[x]);
                            }
                            if m2 < k {
                                let x = ch1[m2] as int;
                                assert forall|mm: int|
                                    k <= mm < ch2.len() implies ch2[mm] != x as usize by {
                                    assert(ch2[mm] == ch1[mm + 1]);
                                }
                                assert(ss2[x] == ss1[x]);
                            }
                        }
                    }
                }
                // parent link of p is untouched
                match ss2[p].parent {
                    None => {},
                    Some(q) => {
                        let qi = q as int;
                        assert(ss1[qi].depth@ + 1 == ss1[p].depth@);
                        assert(qi != c) by {
                            assert(ss1[c].depth@ == ss1[p].depth@ + 1);
                        }
                        assert(ss2[qi].live == ss1[qi].live && ss2[qi].children
                            == ss1[qi].children) by {
                            if qi != p && !(exists|m: int|
                                k <= m < ch2.len() && ch2[m] == qi) {
                                assert(ss2[qi] == ss1[qi]);
                            } else if qi != p {
                                assert(eq_except_pos(ss2[qi], ss1[qi]));
                            }
                        }
                    },
                }
            } else {
                // any other live slot
                let shifted = exists|m: int| k <= m < ch2.len() && ch2[m] == j;
                // children of j are untouched slots or p
                assert(ss2[j].children == ss1[j].children);
                assert forall|m: int| 0 <= m < ss2[j].children@.len() implies #[trigger] child_wf(
                    ss2,
                    j,
                    m,
                ) by {
                    assert(child_wf(ss1, j, m));
                    let x = ss1[j].children@[m] as int;
                    assert(ss1[x].parent == Some(j as usize));
                    assert(x != c) by {
                        assert(ss1[c].parent == Some(p as usize));
                    }
                    assert forall|mm: int| k <= mm < ch2.len() implies ch2[mm]
                        != x as usize by {
                        assert(ch2[mm] == ch1[mm + 1]);
                        assert(child_wf(ss1, p, mm + 1));
                    }
                    if x != p {
                        assert(ss2[x] == ss1[x]);
                    }
                }
                // naming and kind rules carry over child by child
                if ss2[j].kind == LibType::TypeGroup {
                    assert forall|m: int| 0 <= m < ss2[j].children@.len() implies (
                    #[trigger] ss2[ss2[j].children@[m] as int].name) is Some && is_name(
                        ss2[ss2[j].children@[m] as int].name->0@,
                    ) by {
                        assert(child_wf(ss1, j, m));
                        let x = ss1[j].children@[m] as int;
                        assert(ss1[x].name is Some && is_name(ss1[x].name->0@));
                        assert(ss1[x].parent == Some(j as usize));
                        assert(x != c) by {
                            assert(ss1[c].parent == Some(p as usize));
                        }
                        if x != p && !(exists|mm: int| k <= mm < ch2.len() && ch2[mm] == x) {
                            assert(ss2[x] == ss1[x]);
                        } else if x != p {
                            assert(eq_except_pos(ss2[x], ss1[x]));
                        }
                    }
                    assert forall|m1: int, m2: int|
                        0 <= m1 < ss2[j].children@.len() && 0 <= m2 < ss2[j].children@.len() && m1
                            != m2 implies #[trigger] ss2[ss2[j].children@[m1] as int].name->0@
                        != #[trigger] ss2[ss2[j].children@[m2] as int].name->0@ by {
                        assert(child_wf(ss1, j, m1));
                        assert(child_wf(ss1, j, m2));
                        let x1 = ss1[j].children@[m1] as int;
                        let x2 = ss1[j].children@[m2] as int;
                        assert(ss1[x1].name->0@ != ss1[x2].name->0@);
                        assert(ss1[x1].parent == Some(j as usize) && ss1[x2].parent == Some(
                            j as usize,
                        ));
                        assert(x1 != c && x2 != c) by {
                            assert(ss1[c].parent == Some(p as usize));
                        }
                        assert(ss2[x1].name == ss1[x1].name) by {
                            if x1 != p && !(exists|mm: int|
                                k <= mm < ch2.len() && ch2[mm] == x1) {
                                assert(ss2[x1] == ss1[x1]);
                            } else if x1 != p {
                                assert(eq_except_pos(ss2[x1], ss1[x1]));
                            }
                        }
                        assert(ss2[x2].name == ss1[x2].name) by {
                            if x2 != p && !(exists|mm: int|
                                k <= mm < ch2.len() && ch2[mm] == x2) {
                                assert(ss2[x2] == ss1[x2]);
                            } else if x2 != p {
                                assert(eq_except_pos(ss2[x2], ss1[x2]));
                            }
                        }
                    }
                }
                if ss2[j].kind == LibType::TypeArray || ss2[j].kind == LibType::TypeList {
                    assert forall|m: int| 0 <= m < ss2[j].children@.len() implies (
                    #[trigger] ss2[ss2[j].children@[m] as int].name) is None by {
                        assert(child_wf(ss1, j, m));
                        let x = ss1[j].children@[m] as int;
                        assert(ss1[x].name is None);
                        assert(ss1[x].parent == Some(j as usize));
                        assert(x != c) by {
                            assert(ss1[c].parent == Some(p as usize));
                        }
                        if x != p && !(exists|mm: int| k <= mm < ch2.len() && ch2[mm] == x) {
                            assert(ss2[x] == ss1[x]);
                        } else if x != p {
                            assert(eq_except_pos(ss2[x], ss1[x]));
                        }
                    }
                }
                if ss2[j].kind == LibType::TypeArray {
                    assert forall|m1: int, m2: int|
                        0 <= m1 < ss2[j].children@.len() && 0 <= m2
                            < ss2[j].children@.len() implies (
                    #[trigger] ss2[ss2[j].children@[m1] as int].kind) == (#[trigger] ss2[ss2[j].children@[m2] as int].kind)
                        && ss2[ss2[j].children@[m1] as int].kind.spec_is_scalar() by {
                        if 0 <= m1 < ss2[j].children@.len() && 0 <= m2
                            < ss2[j].children@.len() {
                            assert(child_wf(ss1, j, m1));
                            assert(child_wf(ss1, j, m2));
                            let x1 = ss1[j].children@[m1] as int;
                            let x2 = ss1[j].children@[m2] as int;
                            assert(ss1[x1].kind == ss1[x2].kind
                                && ss1[x1].kind.spec_is_scalar());
                            assert(ss1[x1].parent == Some(j as usize) && ss1[x2].parent == Some(
                                j as usize,
                            ));
                            assert(x1 != c && x2 != c) by {
                                assert(ss1[c].parent == Some(p as usize));
                            }
                            assert(ss2[x1].kind == ss1[x1].kind) by {
                                if x1 != p && !(exists|mm: int|
                                    k <= mm < ch2.len() && ch2[mm] == x1) {
                                    assert(ss2[x1] == ss1[x1]);
                                } else if x1 != p {
                                    assert(eq_except_pos(ss2[x1], ss1[x1]));
                                }
                            }
                            assert(ss2[x2].kind == ss1[x2].kind) by {
                                if x2 != p && !(exists|mm: int|
                                    k <= mm < ch2.len() && ch2[mm] == x2) {
                                    assert(ss2[x2] == ss1[x2]);
                                } else if x2 != p {
                                    assert(eq_except_pos(ss2[x2], ss1[x2]));
                                }
                            }
                        }
                    }
                }
                // parent link of j
                match ss2[j].parent {
                    None => {},
                    Some(q) => {
                        let qi = q as int;
                        assert(ss1[qi].depth@ + 1 == ss1[j].depth@);
                        if ss2[qi].live {
                            if qi == p {
                                // j is still one of p's children
                                assert(ss1[p].live);
                                let m0 = ss1[j].pos->0 as int;
                                assert(ch1[m0] == j as usize);
                                assert(m0 != k) by {
                                    assert(j != c);
                                }
                                if m0 < k {
                                    assert(ch2[m0] == ch1[m0]);
                                    assert(ss2[j].pos == ss1[j].pos) by {
                                        let x = ch1[m0] as int;
                                        assert forall|mm: int|
                                            k <= mm < ch2.len() implies ch2[mm]
                                            != x as usize by {
                                            assert(ch2[mm] == ch1[mm + 1]);
                                            assert(child_wf(ss1, p, mm + 1));
                                            assert(child_wf(ss1, p, m0));
                                        }
                                        assert(ss2[x] == ss1[x]);
                                    }
                                } else {
                                    // j moved one position down
                                    assert(ch2[m0 - 1] == ch1[m0]);
                                    assert(ss2[j].pos == Some((m0 - 1) as usize));
                                }
                            } else {
                                assert(ss2[qi].children == ss1[qi].children) by {
                                    if qi != p && !(exists|mm: int|
                                        k <= mm < ch2.len() && ch2[mm] == qi) {
                                        assert(ss2[qi] == ss1[qi]);
                                    } else if qi != p {
                                        assert(eq_except_pos(ss2[qi], ss1[qi]));
                                    }
                                }
                                assert(ss2[qi].live ==> ss1[qi].live) by {
                                    if qi != p && !(exists|mm: int|
                                        k <= mm < ch2.len() && ch2[mm] == qi) {
                                        assert(ss2[qi] == ss1[qi]);
                                    } else if qi != p {
                                        assert(eq_except_pos(ss2[qi], ss1[qi]));
                                    }
                                }
                                assert(ss2[j].pos == ss1[j].pos) by {
                                    assert(ss1[j].parent == Some(q));
                                    assert forall|mm: int|
                                        k <= mm < ch2.len() implies ch2[mm] != j as usize by {
                                        assert(ch2[mm] == ch1[mm + 1]);
                                        assert(child_wf(ss1, p, mm + 1));
                                    }
                                    assert(ss2[j] == ss1[j]);
                                }
                            }
                        }
                    },
                }
            }
        }
    }
}

/// Position of the child of `i` that carries the name `nm`.
pub(crate) open spec fn named_pos(ss: Seq<Slot>, i: int, nm: Seq<char>) -> int {
    choose|k: int|
        0 <= k < ss[i].children@.len() && ((#[trigger] ss[ss[i].children@[k] as int].name)
            matches Some(x) && x@ == nm)
}

/// Some child of `i` carries the name `nm`.
pub(crate) open spec fn has_named(ss: Seq<Slot>, i: int, nm: Seq<char>) -> bool {
    exists|k: int|
        0 <= k < ss[i].children@.len() && ((#[trigger] ss[ss[i].children@[k] as int].name)
            matches Some(x) && x@ == nm)
}

/// One resolution step: a digit segment addresses a child of an
/// aggregate by position, any other segment addresses a group child
/// by name.
pub(crate) open spec fn step_resolve(ss: Seq<Slot>, i: int, seg: Seq<char>) -> Option<int> {
    if crate::path::is_index_seg(seg) {
        if ss[i].kind.spec_is_aggregate() && crate::num::dec_val(seg) < ss[i].children@.len() {
            Some(ss[i].children@[crate::num::dec_val(seg) as int] as int)
        } else {
            None
        }
    } else {
        if ss[i].kind == LibType::TypeGroup && has_named(ss, i, seg) {
            Some(ss[i].children@[named_pos(ss, i, seg)] as int)
        } else {
            None
        }
    }
}

/// Resolution of a segment sequence, segment by segment from `i`; any
/// missing segment yields failure, never a partial result.
pub(crate) open spec fn resolve_segs(ss: Seq<Slot>, i: int, segs: Seq<Seq<char>>) -> Option<int>
    decreases segs.len(),
{
    if segs.len() == 0 {
        Some(i)
    } else {
        match step_resolve(ss, i, segs[0]) {
            None => None,
            Some(j) => resolve_segs(ss, j, segs.drop_first()),
        }
    }
}

/// What resolution reaches stays inside the arena and attached.
pub(crate) proof fn lemma_resolve_attached(ss: Seq<Slot>, i: int, segs: Seq<Seq<char>>)
    requires
        slots_wf(ss),
        ss.len() <= usize::MAX,
        0 <= i < ss.len(),
        attached_in(ss, i),
    ensures
        match resolve_segs(ss, i, segs) {
            Some(j) => 0 <= j < ss.len() && attached_in(ss, j),
            None => true,
        },
    decreases segs.len(),
{
    if segs.len() > 0 {
        match step_resolve(ss, i, segs[0]) {
            None => {},
            Some(j) => {
                assert(slot_wf(ss, i));
                let k = if crate::path::is_index_seg(segs[0]) {
                    crate::num::dec_val(segs[0]) as int
                } else {
                    named_pos(ss, i, segs[0])
                };
                assert(0 <= k < ss[i].children@.len());
                assert(child_wf(ss, i, k));
                assert(j == ss[i].children@[k] as int);
                assert(attached_in(ss, j)) by {
                    assert(ss[j].parent == Some(i as usize));
                    assert(ss[i].depth@ < ss[j].depth@);
                }
                lemma_resolve_attached(ss, j, segs.drop_first());
            },
        }
    }
}

/// The dotted path from the root down to node `i`: named nodes
/// render their name, positional nodes their decimal position; the
/// root renders as the empty text.
pub(crate) open spec fn spec_path(ss: Seq<Slot>, i: int) -> Seq<char>
    decreases ss[i].depth@,
    when slots_wf(ss) && 0 <= i < ss.len()
{
    match ss[i].parent {
        None => Seq::empty(),
        Some(p) => {
            if 0 <= (p as int) < ss.len() && ss[p as int].depth@ < ss[i].depth@ {
                let pre = spec_path(ss, p as int);
                let seg = match ss[i].name {
                    Some(n) => n@,
                    None => crate::num::dec_digits(ss[i].pos->0 as nat),
                };
                if pre.len() == 0 {
                    seg
                } else {
                    pre + seq!['.'] + seg
                }
            } else {
                Seq::empty()
            }
        },
    }
}

/// The characters of the path from the root down to node `i`.
pub(crate) fn path_chars(cfg: &Config, i: usize) -> (v: Vec<char>)
    requires
        cfg.wf(),
        (i as int) < cfg.slots@.len(),
        attached_in(cfg.slots@, i as int),
    ensures
        v@ == spec_path(cfg.slots@, i as int),
    decreases cfg.slots@[i as int].depth@,
{
    proof {
        assert(slot_wf(cfg.slots@, i as int));
    }
    match cfg.slots[i].parent {
        None => Vec::new(),
        Some(p) => {
            let mut v = path_chars(cfg, p);
            if v.len() > 0 {
                v.push('.');
            }
            let seg: Vec<char> = match &cfg.slots[i].name {
                Some(n) => crate::text::str_to_chars(n.as_str()),
                None => {
                    let k = match cfg.slots[i].pos {
                        Some(k) => k,
                        None => 0,
                    };
                    crate::num::u64_to_dec(k as u64)
                },
            };
            let mut j: usize = 0;
            let ghost base = v@;
            while j < seg.len()
                invariant
                    j <= seg@.len(),
                    v@ == base + seg@.subrange(0, j as int),
                decreases seg@.len() - j,
            {
                v.push(seg[j]);
                proof {
                    assert(v@ =~= base + seg@.subrange(0, j + 1));
                }
                j = j + 1;
            }
            proof {
                assert(seg@.subrange(0, seg@.len() as int) =~= seg@);
                let pre = spec_path(cfg.slots@, p as int);
                if pre.len() == 0 {
                    assert(v@ =~= pre + seg@);
                    assert(pre + seg@ =~= seg@);
                } else {
                    assert(v@ =~= pre + seq!['.'] + seg@);
                }
            }
            v
        },
    }
}

/// The raw tree rooted at live slot `i`.
pub(crate) fn flatten_node(cfg: &Config, i: usize) -> (rv: crate::parse::RawValue)
    requires
        cfg.wf(),
        (i as int) < cfg.slots@.len(),
        cfg.slots@[i as int].live,
    ensures
        crate::parse::raw_view(rv) == node_rawv(cfg.slots@, i as int),
    decreases cfg.slots@.len() - cfg.slots@[i as int].depth@, 1int,
{
    proof {
        lemma_wf_links(cfg.slots@);
        assert(slot_wf(cfg.slots@, i as int));
    }
    let k = cfg.slots[i].kind;
    if matches!(k, LibType::TypeGroup) {
        let entries = flatten_entries(cfg, i);
        crate::parse::RawValue::Group(entries)
    } else if matches!(k, LibType::TypeArray) {
        let items = flatten_items(cfg, i);
        crate::parse::RawValue::Array(items)
    } else if matches!(k, LibType::TypeList) {
        let items = flatten_items(cfg, i);
        crate::parse::RawValue::List(items)
    } else {
        let fmt = cfg.slots[i].fmt;
        match &cfg.slots[i].value {
            Some(v) => crate::parse::RawValue::Scalar(v.dup(), fmt),
            None => {
                proof {
                    assert(false);
                }
                crate::parse::RawValue::Scalar(Value::IntVal(0), fmt)
            },
        }
    }
}

/// The named raw trees of a group node's children.
pub(crate) fn flatten_entries(cfg: &Config, i: usize) -> (r: Vec<
    (String, crate::parse::RawValue),
>)
    requires
        cfg.wf(),
        (i as int) < cfg.slots@.len(),
        cfg.slots@[i as int].live,
        cfg.slots@[i as int].kind == LibType::TypeGroup,
    ensures
        crate::parse::entry_views(r@) == entry_rawvs(
            cfg.slots@,
            cfg.slots@[i as int].children@,
            cfg.slots@[i as int].depth@,
        ),
    decreases cfg.slots@.len() - cfg.slots@[i as int].depth@, 0int,
{
    proof {
        lemma_wf_links(cfg.slots@);
        assert(slot_wf(cfg.slots@, i as int));
    }
    let ghost ss = cfg.slots@;
    let ghost cs = cfg.slots@[i as int].children@;
    let ghost d = cfg.slots@[i as int].depth@;
    let clen = cfg.slots[i].children.len();
    let mut r: Vec<(String, crate::parse::RawValue)> = Vec::new();
    proof {
        assert(crate::parse::entry_views(r@) =~= Seq::<(Seq<char>, crate::parse::RawV)>::empty());
        assert(entry_rawvs(ss, cs.subrange(0, 0), d) =~= Seq::<
            (Seq<char>, crate::parse::RawV),
        >::empty());
    }
    let mut k: usize = 0;
    while k < clen
        invariant
            cfg.wf(),
            ss == cfg.slots@,
            links_ok(ss),
            (i as int) < ss.len(),
            ss[i as int].live,
            ss[i as int].kind == LibType::TypeGroup,
            cs == ss[i as int].children@,
            d == ss[i as int].depth@,
            d < ss.len(),
            clen == cs.len(),
            k <= clen,
            forall|t: int|
                0 <= t < cs.len() ==> ((#[trigger] cs[t]) as int) < ss.len() && ss[cs[t]
                    as int].live && ss[cs[t] as int].depth@ == d + 1,
            crate::parse::entry_views(r@) == entry_rawvs(ss, cs.subrange(0, k as int), d),
        decreases clen - k,
    {
        proof {
            assert(slot_wf(ss, i as int));
            assert(child_wf(ss, i as int, k as int));
        }
        let c = cfg.slots[i].children[k];
        let nm = match &cfg.slots[c].name {
            Some(n) => n.clone(),
            None => {
                proof {
                    assert(false);
                }
                String::new()
            },
        };
        let rv = flatten_node(cfg, c);
        let ghost old_r = r@;
        r.push((nm, rv));
        proof {
            crate::parse::lemma_entry_views(old_r);
            crate::parse::lemma_entry_views(r@);
            let pre = cs.subrange(0, k as int);
            let cur = cs.subrange(0, k + 1);
            assert(cur.drop_last() =~= pre);
            assert(cur.last() == cs[k as int]);
            assert(entry_rawvs(ss, cur, d) == entry_rawvs(ss, pre, d).push(
                (ss[c as int].name->0@, node_rawv(ss, c as int)),
            ));
            assert forall|t: int| 0 <= t < r@.len() implies crate::parse::entry_views(r@)[t]
                == entry_rawvs(ss, cur, d)[t] by {
                if t < old_r.len() {
                    assert(r@[t] == old_r[t]);
                    assert(crate::parse::entry_views(old_r)[t] == ((old_r[t]).0@,
                    crate::parse::raw_view(old_r[t].1)));
                } else {
                    assert(r@[t] == (nm, rv));
                }
            }
            assert(crate::parse::entry_views(r@) =~= entry_rawvs(ss, cur, d));
        }
        k = k + 1;
    }
    proof {
        assert(cs.subrange(0, cs.len() as int) =~= cs);
    }
    r
}

/// The raw trees of an array or list node's children.
pub(crate) fn flatten_items(cfg: &Config, i: usize) -> (r: Vec<crate::parse::RawValue>)
    requires
        cfg.wf(),
        (i as int) < cfg.slots@.len(),
        cfg.slots@[i as int].live,
    ensures
        crate::parse::raw_views(r@) == child_rawvs(
            cfg.slots@,
            cfg.slots@[i as int].children@,
            cfg.slots@[i as int].depth@,
        ),
    decreases cfg.slots@.len() - cfg.slots@[i as int].depth@, 0int,
{
    proof {
        lemma_wf_links(cfg.slots@);
        assert(slot_wf(cfg.slots@, i as int));
    }
    let ghost ss = cfg.slots@;
    let ghost cs = cfg.slots@[i as int].children@;
    let ghost d = cfg.slots@[i as int].depth@;
    let clen = cfg.slots[i].children.len();
    let mut r: Vec<crate::parse::RawValue> = Vec::new();
    proof {
        assert(crate::parse::raw_views(r@) =~= Seq::<crate::parse::RawV>::empty());
        assert(child_rawvs(ss, cs.subrange(0, 0), d) =~= Seq::<crate::parse::RawV>::empty());
    }
    let mut k: usize = 0;
    while k < clen
        invariant
            cfg.wf(),
            ss == cfg.slots@,
            links_ok(ss),
            (i as int) < ss.len(),
            ss[i as int].live,
            cs == ss[i as int].children@,
            d == ss[i as int].depth@,
            d < ss.len(),
            clen == cs.len(),
            k <= clen,
            forall|t: int|
                0 <= t < cs.len() ==> ((#[trigger] cs[t]) as int) < ss.len() && ss[cs[t]
                    as int].live && ss[cs[t] as int].depth@ == d + 1,
            crate::parse::raw_views(r@) == child_rawvs(ss, cs.subrange(0, k as int), d),
        decreases clen - k,
    {
        proof {
            assert(slot_wf(ss, i as int));
            assert(child_wf(ss, i as int, k as int));
        }
        let c = cfg.slots[i].children[k];
        let rv = flatten_node(cfg, c);
        let ghost old_r = r@;
        r.push(rv);
        proof {
            crate::parse::lemma_raw_views(old_r);
            crate::parse::lemma_raw_views(r@);
            let pre = cs.subrange(0, k as int);
            let cur = cs.subrange(0, k + 1);
            assert(cur.drop_last() =~= pre);
            assert(cur.last() == cs[k as int]);
            assert(child_rawvs(ss, cur, d) == child_rawvs(ss, pre, d).push(
                node_rawv(ss, c as int),
            ));
            assert forall|t: int| 0 <= t < r@.len() implies crate::parse::raw_views(r@)[t]
                == child_rawvs(ss, cur, d)[t] by {
                if t < old_r.len() {
                    assert(r@[t] == old_r[t]);
                    assert(crate::parse::raw_views(old_r)[t] == crate::parse::raw_view(
                        old_r[t],
                    ));
                } else {
                    assert(r@[t] == rv);
                }
            }
            assert(crate::parse::raw_views(r@) =~= child_rawvs(ss, cur, d));
        }
        k = k + 1;
    }
    proof {
        assert(cs.subrange(0, cs.len() as int) =~= cs);
    }
    r
}

/// The raw tree of a well-formed node is storable: its floats are
/// literals, its group names valid and distinct, its arrays uniform.
pub(crate) proof fn lemma_node_rawv_ok(ss: Seq<Slot>, i: int)
    requires
        slots_wf(ss),
        links_ok(ss),
        0 <= i < ss.len(),
        ss[i].live,
    ensures
        crate::parse::rawv_ok(node_rawv(ss, i)),
    decreases ss.len() - ss[i].depth@, 1int, 0int,
{
    let s = ss[i];
    assert(slot_wf(ss, i));
    assert forall|k: int| 0 <= k < s.children@.len() implies ((#[trigger] s.children@[k]) as int)
        < ss.len() && ss[s.children@[k] as int].live && ss[s.children@[k] as int].depth@
        == s.depth@ + 1 by {
        assert(child_wf(ss, i, k));
    }
    if s.kind == LibType::TypeGroup {
        let es = entry_rawvs(ss, s.children@, s.depth@);
        lemma_entry_rawvs(ss, s.children@, s.depth@);
        lemma_rawvs_ok(ss, s.children@, s.depth@, i);
        crate::parse::lemma_entries_ok(es);
        assert forall|k: int| 0 <= k < es.len() implies crate::parse::rawv_ok(
            (#[trigger] es[k]).1,
        ) by {
            assert(es[k] == (ss[s.children@[k] as int].name->0@, node_rawv(
                ss,
                s.children@[k] as int,
            )));
            assert(crate::parse::rawv_ok(node_rawv(ss, s.children@[k] as int)));
        }
        assert forall|k: int| 0 <= k < es.len() implies crate::text::is_name(
            (#[trigger] es[k]).0,
        ) by {
            assert(es[k] == (ss[s.children@[k] as int].name->0@, node_rawv(
                ss,
                s.children@[k] as int,
            )));
            assert(is_name(ss[s.children@[k] as int].name->0@));
        }
        assert forall|k1: int, k2: int|
            0 <= k1 < es.len() && 0 <= k2 < es.len() && k1 != k2 implies (#[trigger] es[k1]).0
            != (#[trigger] es[k2]).0 by {
            assert(es[k1] == (ss[s.children@[k1] as int].name->0@, node_rawv(
                ss,
                s.children@[k1] as int,
            )));
            assert(es[k2] == (ss[s.children@[k2] as int].name->0@, node_rawv(
                ss,
                s.children@[k2] as int,
            )));
            assert(ss[s.children@[k1] as int].name->0@ != ss[s.children@[k2] as int].name->0@);
        }
    } else if s.kind == LibType::TypeArray {
        let vs = child_rawvs(ss, s.children@, s.depth@);
        lemma_child_rawvs(ss, s.children@, s.depth@);
        lemma_rawvs_ok(ss, s.children@, s.depth@, i);
        crate::parse::lemma_items_ok(vs);
        assert forall|k: int| 0 <= k < vs.len() implies crate::parse::rawv_ok(
            #[trigger] vs[k],
        ) by {
            assert(vs[k] == node_rawv(ss, s.children@[k] as int));
            assert(crate::parse::rawv_ok(node_rawv(ss, s.children@[k] as int)));
        }
        assert forall|k1: int, k2: int|
            0 <= k1 < vs.len() && 0 <= k2 < vs.len() implies ((#[trigger] vs[k1]) matches
            crate::parse::RawV::ScalarV(v1, f1) && ((#[trigger] vs[k2]) matches
            crate::parse::RawV::ScalarV(v2, f2) && crate::parse::vkind(v1)
                == crate::parse::vkind(v2))) by {
            if 0 <= k1 < vs.len() && 0 <= k2 < vs.len() {
                let c1 = s.children@[k1] as int;
                let c2 = s.children@[k2] as int;
                assert(ss[c1].kind == ss[c2].kind && ss[c1].kind.spec_is_scalar());
                assert(vs[k1] == node_rawv(ss, c1));
                assert(vs[k2] == node_rawv(ss, c2));
                assert(slot_wf(ss, c1));
                assert(slot_wf(ss, c2));
                assert(ss[c1].value is Some && ss[c1].value->0.spec_kind() == ss[c1].kind);
                assert(ss[c2].value is Some && ss[c2].value->0.spec_kind() == ss[c2].kind);
            }
        }
        assert(crate::parse::array_ok(vs));
    } else if s.kind == LibType::TypeList {
        let vs = child_rawvs(ss, s.children@, s.depth@);
        lemma_child_rawvs(ss, s.children@, s.depth@);
        lemma_rawvs_ok(ss, s.children@, s.depth@, i);
        crate::parse::lemma_items_ok(vs);
        assert forall|k: int| 0 <= k < vs.len() implies crate::parse::rawv_ok(
            #[trigger] vs[k],
        ) by {
            assert(vs[k] == node_rawv(ss, s.children@[k] as int));
            assert(crate::parse::rawv_ok(node_rawv(ss, s.children@[k] as int)));
        }
    } else {
        assert(s.kind.spec_is_scalar());
        assert(s.value is Some && s.value->0.spec_kind() == s.kind && value_ok(s.value->0));
    }
}

/// The raw trees of a well-formed node's children are storable.
pub(crate) proof fn lemma_rawvs_ok(ss: Seq<Slot>, cs: Seq<usize>, d: nat, i: int)
    requires
        slots_wf(ss),
        links_ok(ss),
        0 <= i < ss.len(),
        ss[i].live,
        d == ss[i].depth@,
        cs.len() <= ss[i].children@.len(),
        forall|k: int| 0 <= k < cs.len() ==> #[trigger] cs[k] == ss[i].children@[k],
    ensures
        forall|k: int|
            0 <= k < cs.len() ==> crate::parse::rawv_ok(
                node_rawv(ss, (#[trigger] cs[k]) as int),
            ),
    decreases ss.len() - ss[i].depth@, 0int, cs.len(),
{
    assert(slot_wf(ss, i));
    if cs.len() > 0 {
        lemma_rawvs_ok(ss, cs.drop_last(), d, i);
        let c = cs.last() as int;
        assert(cs[cs.len() - 1] == ss[i].children@[cs.len() - 1]);
        assert(child_wf(ss, i, cs.len() - 1));
        lemma_node_rawv_ok_at(ss, c);
        assert forall|k: int| 0 <= k < cs.len() implies crate::parse::rawv_ok(
            node_rawv(ss, (#[trigger] cs[k]) as int),
        ) by {
            if k < cs.len() - 1 {
                assert(cs.drop_last()[k] == cs[k]);
            }
        }
    }
}

/// As [`lemma_node_rawv_ok`], measured so that it fits under the
/// child recursion.
pub(crate) proof fn lemma_node_rawv_ok_at(ss: Seq<Slot>, i: int)
    requires
        slots_wf(ss),
        links_ok(ss),
        0 <= i < ss.len(),
        ss[i].live,
    ensures
        crate::parse::rawv_ok(node_rawv(ss, i)),
    decreases ss.len() - ss[i].depth@, 2int, 0int,
{
    lemma_node_rawv_ok(ss, i);
}

/// A slot stays well-formed when the only change elsewhere is one
/// other slot's children list growing at the end.
pub(crate) proof fn lemma_slot_wf_preserved(ss1: Seq<Slot>, ss2: Seq<Slot>, ni: int, j: int)
    requires
        0 <= j < ss1.len(),
        0 <= ni < ss1.len(),
        j != ni,
        slot_wf(ss1, j),
        ss2.len() >= ss1.len(),
        forall|x: int| 0 <= x < ss1.len() && x != ni ==> #[trigger] ss2[x] == ss1[x],
        ss2[ni].live == ss1[ni].live && ss2[ni].kind == ss1[ni].kind && ss2[ni].name
            == ss1[ni].name && ss2[ni].parent == ss1[ni].parent && ss2[ni].pos == ss1[ni].pos
            && ss2[ni].value == ss1[ni].value && ss2[ni].fmt == ss1[ni].fmt && ss2[ni].depth
            == ss1[ni].depth,
        ss1[ni].children@.len() <= ss2[ni].children@.len(),
        forall|t: int|
            0 <= t < ss1[ni].children@.len() ==> #[trigger] ss2[ni].children@[t]
                == ss1[ni].children@[t],
    ensures
        slot_wf(ss2, j),
{
    if ss2[j].live {
        assert(ss2[j] == ss1[j]);
        assert forall|t: int| 0 <= t < ss2[j].children@.len() implies #[trigger] child_wf(
            ss2,
            j,
            t,
        ) by {
            assert(child_wf(ss1, j, t));
            let x = ss1[j].children@[t] as int;
            if x != ni {
                assert(ss2[x] == ss1[x]);
            }
        }
        match ss2[j].parent {
            None => {},
            Some(q) => {
                let qi = q as int;
                if qi == ni {
                    assert(ss2[ni].live == ss1[ni].live);
                    if ss1[ni].live {
                        assert((ss1[j].pos->0 as int) < ss1[ni].children@.len());
                        assert(ss2[ni].children@[ss1[j].pos->0 as int] == ss1[ni].children@[
                        ss1[j].pos->0 as int]);
                    }
                } else {
                    assert(ss2[qi] == ss1[qi]);
                }
            },
        }
        if ss2[j].kind == LibType::TypeGroup {
            assert forall|t: int| 0 <= t < ss2[j].children@.len() implies (
            #[trigger] ss2[ss2[j].children@[t] as int].name) is Some && is_name(
                ss2[ss2[j].children@[t] as int].name->0@,
            ) by {
                assert(child_wf(ss1, j, t));
                let x = ss1[j].children@[t] as int;
                assert(ss1[x].name is Some && is_name(ss1[x].name->0@));
                if x != ni {
                    assert(ss2[x] == ss1[x]);
                }
            }
            assert forall|t1: int, t2: int|
                0 <= t1 < ss2[j].children@.len() && 0 <= t2 < ss2[j].children@.len() && t1
                    != t2 implies #[trigger] ss2[ss2[j].children@[t1] as int].name->0@
                != #[trigger] ss2[ss2[j].children@[t2] as int].name->0@ by {
                assert(child_wf(ss1, j, t1));
                assert(child_wf(ss1, j, t2));
                let x1 = ss1[j].children@[t1] as int;
                let x2 = ss1[j].children@[t2] as int;
                assert(ss1[x1].name->0@ != ss1[x2].name->0@);
                assert(ss2[x1].name == ss1[x1].name);
                assert(ss2[x2].name == ss1[x2].name);
            }
        }
        if ss2[j].kind == LibType::TypeArray || ss2[j].kind == LibType::TypeList {
            assert forall|t: int| 0 <= t < ss2[j].children@.len() implies (
            #[trigger] ss2[ss2[j].children@[t] as int].name) is None by {
                assert(child_wf(ss1, j, t));
                let x = ss1[j].children@[t] as int;
                assert(ss1[x].name is None);
                assert(ss2[x].name == ss1[x].name);
            }
        }
        if ss2[j].kind == LibType::TypeArray {
            assert forall|t1: int, t2: int|
                0 <= t1 < ss2[j].children@.len() && 0 <= t2 < ss2[j].children@.len() implies (
            #[trigger] ss2[ss2[j].children@[t1] as int].kind) == (#[trigger] ss2[ss2[j].children@[
            t2] as int].kind) && ss2[ss2[j].children@[t1] as int].kind.spec_is_scalar() by {
                if 0 <= t1 < ss2[j].children@.len() && 0 <= t2 < ss2[j].children@.len() {
                    assert(child_wf(ss1, j, t1));
                    assert(child_wf(ss1, j, t2));
                    let x1 = ss1[j].children@[t1] as int;
                    let x2 = ss1[j].children@[t2] as int;
                    assert(ss1[x1].kind == ss1[x2].kind && ss1[x1].kind.spec_is_scalar());
                    assert(ss2[x1].kind == ss1[x1].kind);
                    assert(ss2[x2].kind == ss1[x2].kind);
                }
            }
        }
    }
}

/// The root of a freshly built fragment becomes fully well-formed the
/// moment its parent's children list takes it in.
pub(crate) proof fn lemma_slot_wf_of_built(
    ssb: Seq<Slot>,
    ssc: Seq<Slot>,
    ni: int,
    ci: int,
    kk: usize,
)
    requires
        0 <= ni < ci < ssb.len(),
        ssb.len() <= usize::MAX,
        ssc.len() == ssb.len(),
        forall|x: int| 0 <= x < ssb.len() && x != ni ==> #[trigger] ssc[x] == ssb[x],
        ssc[ni].live,
        (kk as int) < ssc[ni].children@.len(),
        ssc[ni].children@[kk as int] == ci as usize,
        links_ok(ssc),
        ssb[ci].live,
        ssb[ci].parent == Some(ni as usize),
        ssb[ci].pos == Some(kk),
        ssb[ci].depth@ == ssc[ni].depth@ + 1,
        ssb[ci].kind.spec_is_scalar() || ssb[ci].kind.spec_is_aggregate(),
        ssb[ci].kind.spec_is_scalar() ==> ssb[ci].value is Some && ssb[ci].value->0.spec_kind()
            == ssb[ci].kind && value_ok(ssb[ci].value->0) && ssb[ci].children@.len() == 0,
        ssb[ci].kind.spec_is_scalar() && ssb[ci].kind != LibType::TypeInt && ssb[ci].kind
            != LibType::TypeInt64 ==> ssb[ci].fmt == Format::FormatDefault,
        ssb[ci].kind.spec_is_aggregate() ==> ssb[ci].value is None,
        forall|t: int| 0 <= t < ssb[ci].children@.len() ==> #[trigger] child_wf(ssb, ci, t),
        ssb[ni].parent != Some(ci as usize),
        ssb[ci].kind == LibType::TypeGroup ==> (forall|t: int|
            0 <= t < ssb[ci].children@.len()
                ==> (#[trigger] ssb[ssb[ci].children@[t] as int].name) is Some && is_name(
                    ssb[ssb[ci].children@[t] as int].name->0@,
                )) && (forall|t1: int, t2: int|
            0 <= t1 < ssb[ci].children@.len() && 0 <= t2 < ssb[ci].children@.len() && t1 != t2
                ==> #[trigger] ssb[ssb[ci].children@[t1] as int].name->0@ != #[trigger] ssb[ssb[
            ci].children@[t2] as int].name->0@),
        (ssb[ci].kind == LibType::TypeArray || ssb[ci].kind == LibType::TypeList) ==> forall|
            t: int,
        |
            0 <= t < ssb[ci].children@.len() ==> (#[trigger] ssb[ssb[ci].children@[t]
                as int].name) is None,
        ssb[ci].kind == LibType::TypeArray ==> forall|t1: int, t2: int|
            0 <= t1 < ssb[ci].children@.len() && 0 <= t2 < ssb[ci].children@.len() ==> (
            #[trigger] ssb[ssb[ci].children@[t1] as int].kind) == (#[trigger] ssb[ssb[
            ci].children@[t2] as int].kind) && ssb[ssb[ci].children@[t1]
                as int].kind.spec_is_scalar(),
    ensures
        slot_wf(ssc, ci),
{
    assert(ssc[ci] == ssb[ci]);
    assert(ssc[ci].depth@ < ssc.len()) by {
        assert(ssc[ci].live);
    }
    assert forall|t: int|
        0 <= t < ssb[ci].children@.len() implies #[trigger] ssb[ci].children@[t] as int
        != ni by {
        assert(child_wf(ssb, ci, t));
        assert(ssb[ssb[ci].children@[t] as int].parent == Some(ci as usize));
    }
    assert forall|t: int| 0 <= t < ssc[ci].children@.len() implies #[trigger] child_wf(
        ssc,
        ci,
        t,
    ) by {
        assert(child_wf(ssb, ci, t));
        let x = ssb[ci].children@[t] as int;
        assert(ssc[x] == ssb[x]);
    }
    if ssc[ci].kind == LibType::TypeGroup {
        assert forall|t: int| 0 <= t < ssc[ci].children@.len() implies (
        #[trigger] ssc[ssc[ci].children@[t] as int].name) is Some && is_name(
            ssc[ssc[ci].children@[t] as int].name->0@,
        ) by {
            let x = ssb[ci].children@[t] as int;
            assert(ssb[x].name is Some && is_name(ssb[x].name->0@));
            assert(ssc[x] == ssb[x]);
        }
        assert forall|t1: int, t2: int|
            0 <= t1 < ssc[ci].children@.len() && 0 <= t2 < ssc[ci].children@.len() && t1
                != t2 implies #[trigger] ssc[ssc[ci].children@[t1] as int].name->0@
            != #[trigger] ssc[ssc[ci].children@[t2] as int].name->0@ by {
            let x1 = ssb[ci].children@[t1] as int;
            let x2 = ssb[ci].children@[t2] as int;
            assert(ssb[x1].name->0@ != ssb[x2].name->0@);
            assert(ssc[x1] == ssb[x1]);
            assert(ssc[x2] == ssb[x2]);
        }
    }
    if ssc[ci].kind == LibType::TypeArray || ssc[ci].kind == LibType::TypeList {
        assert forall|t: int| 0 <= t < ssc[ci].children@.len() implies (
        #[trigger] ssc[ssc[ci].children@[t] as int].name) is None by {
            let x = ssb[ci].children@[t] as int;
            assert(ssb[x].name is None);
            assert(ssc[x] == ssb[x]);
        }
    }
    if ssc[ci].kind == LibType::TypeArray {
        assert forall|t1: int, t2: int|
            0 <= t1 < ssc[ci].children@.len() && 0 <= t2 < ssc[ci].children@.len() implies (
        #[trigger] ssc[ssc[ci].children@[t1] as int].kind) == (#[trigger] ssc[ssc[ci].children@[
        t2] as int].kind) && ssc[ssc[ci].children@[t1] as int].kind.spec_is_scalar() by {
            if 0 <= t1 < ssc[ci].children@.len() && 0 <= t2 < ssc[ci].children@.len() {
                let x1 = ssb[ci].children@[t1] as int;
                let x2 = ssb[ci].children@[t2] as int;
                assert(ssb[x1].kind == ssb[x2].kind && ssb[x1].kind.spec_is_scalar());
                assert(ssc[x1] == ssb[x1]);
                assert(ssc[x2] == ssb[x2]);
            }
        }
    }
}

/// What building one raw tree under `parent` leaves behind: the old
/// slots untouched, one new closed, internally well-formed fragment
/// rooted at `n`, whose root carries the given name and position and
/// is not yet entered in the parent's children.
pub(crate) open spec fn build_value_post(
    prev: Config,
    cur: Config,
    parent: usize,
    pos: usize,
    name: Option<String>,
    rvv: crate::parse::RawV,
    n: usize,
) -> bool {
    let ss1 = prev.slots@;
    let ss2 = cur.slots@;
    let ni = n as int;
    &&& ni == ss1.len()
    &&& ss2.len() > ss1.len()
    &&& (forall|j: int| 0 <= j < ss1.len() ==> #[trigger] ss2[j] == ss1[j])
    &&& links_ok(ss2)
    &&& region_local(ss2, ni, ss2.len() as int)
    &&& (forall|j: int| ni < j < ss2.len() ==> #[trigger] slot_wf(ss2, j))
    &&& ss2[ni].live
    &&& ss2[ni].parent == Some(parent)
    &&& ss2[ni].pos == Some(pos)
    &&& ss2[ni].name == name
    &&& ss2[ni].depth@ == ss1[parent as int].depth@ + 1
    &&& ss2[ni].kind == rawv_kind(rvv)
    &&& (ss2[ni].kind.spec_is_scalar() || ss2[ni].kind.spec_is_aggregate())
    &&& (ss2[ni].kind.spec_is_scalar() ==> ss2[ni].value is Some && ss2[ni].value->0.spec_kind()
        == ss2[ni].kind && value_ok(ss2[ni].value->0) && ss2[ni].children@.len() == 0)
    &&& (ss2[ni].kind.spec_is_scalar() && ss2[ni].kind != LibType::TypeInt && ss2[ni].kind
        != LibType::TypeInt64 ==> ss2[ni].fmt == Format::FormatDefault)
    &&& (ss2[ni].kind.spec_is_aggregate() ==> ss2[ni].value is None)
    &&& (forall|k: int| 0 <= k < ss2[ni].children@.len() ==> #[trigger] child_wf(ss2, ni, k))
    &&& (ss2[ni].kind == LibType::TypeGroup ==> {
        &&& (forall|k: int|
            0 <= k < ss2[ni].children@.len()
                ==> (#[trigger] ss2[ss2[ni].children@[k] as int].name) is Some && is_name(
                    ss2[ss2[ni].children@[k] as int].name->0@,
                ))
        &&& (forall|k1: int, k2: int|
            0 <= k1 < ss2[ni].children@.len() && 0 <= k2 < ss2[ni].children@.len() && k1 != k2
                ==> #[trigger] ss2[ss2[ni].children@[k1] as int].name->0@ != #[trigger] ss2[ss2[
            ni].children@[k2] as int].name->0@)
    })
    &&& ((ss2[ni].kind == LibType::TypeArray || ss2[ni].kind == LibType::TypeList) ==> forall|
        k: int,
    |
        0 <= k < ss2[ni].children@.len() ==> (#[trigger] ss2[ss2[ni].children@[k]
            as int].name) is None)
    &&& (ss2[ni].kind == LibType::TypeArray ==> forall|k1: int, k2: int|
        0 <= k1 < ss2[ni].children@.len() && 0 <= k2 < ss2[ni].children@.len() ==> (
        #[trigger] ss2[ss2[ni].children@[k1] as int].kind) == (#[trigger] ss2[ss2[ni].children@[
        k2] as int].kind) && ss2[ss2[ni].children@[k1] as int].kind.spec_is_scalar())
    &&& node_rawv(ss2, ni) == rvv
    &&& cur.include_dir == prev.include_dir
    &&& cur.options == prev.options
}

/// Builds the tree for one raw value as a fresh fragment; the caller
/// enters the returned root into its parent's children.
pub(crate) fn build_value(
    cfg: &mut Config,
    parent: usize,
    pos: usize,
    name: Option<String>,
    rv: &crate::parse::RawValue,
) -> (n: usize)
    requires
        links_ok(old(cfg).slots@),
        (parent as int) < old(cfg).slots@.len(),
        old(cfg).slots@[parent as int].live,
        crate::parse::rawv_ok(crate::parse::raw_view(*rv)),
    ensures
        build_value_post(
            *old(cfg),
            *final(cfg),
            parent,
            pos,
            name,
            crate::parse::raw_view(*rv),
            n,
        ),
    decreases *rv, 0int,
{
    let n = cfg.slots.len();
    let ghost ss1 = cfg.slots@;
    let ghost dp = cfg.slots@[parent as int].depth@;
    let ghost name0 = name;
    match rv {
        crate::parse::RawValue::Scalar(v, fmt) => {
            let slot = Slot {
                live: true,
                kind: v.kind(),
                name,
                parent: Some(parent),
                pos: Some(pos),
                children: Vec::new(),
                value: Some(v.dup()),
                fmt: *fmt,
                depth: Ghost(dp + 1),
            };
            cfg.slots.push(slot);
            proof {
                let ss2 = cfg.slots@;
                assert forall|j: int, k: int|
                    #![trigger ss2[j].children@[k]]
                    0 <= j < ss2.len() && ss2[j].live && 0 <= k
                        < ss2[j].children@.len() implies child_wf(ss2, j, k) by {
                    if j < ss1.len() {
                        assert(child_wf(ss1, j, k));
                        assert(ss1[j].children@[k] as int != ss2.len() - 1);
                    }
                }
                assert forall|j: int|
                    0 <= j < ss2.len() && (#[trigger] ss2[j]).live implies ss2[j].depth@
                    < ss2.len() by {
                    if j < ss1.len() {
                        assert(ss1[j].live && ss1[j].depth@ < ss1.len());
                    }
                }
                assert(node_rawv(ss2, n as int) == crate::parse::raw_view(*rv));
            }
            n
        },
        crate::parse::RawValue::Group(entries) => {
            let slot = Slot {
                live: true,
                kind: LibType::TypeGroup,
                name,
                parent: Some(parent),
                pos: Some(pos),
                children: Vec::new(),
                value: None,
                fmt: Format::FormatDefault,
                depth: Ghost(dp + 1),
            };
            cfg.slots.push(slot);
            proof {
                let ss2 = cfg.slots@;
                assert forall|j: int, k: int|
                    #![trigger ss2[j].children@[k]]
                    0 <= j < ss2.len() && ss2[j].live && 0 <= k
                        < ss2[j].children@.len() implies child_wf(ss2, j, k) by {
                    if j < ss1.len() {
                        assert(child_wf(ss1, j, k));
                        assert(ss1[j].children@[k] as int != ss2.len() - 1);
                    }
                }
                assert forall|j: int|
                    0 <= j < ss2.len() && (#[trigger] ss2[j]).live implies ss2[j].depth@
                    < ss2.len() by {
                    if j < ss1.len() {
                        assert(ss1[j].live && ss1[j].depth@ < ss1.len());
                    }
                }
                crate::parse::lemma_entries_ok(
                    match crate::parse::raw_view(*rv) {
                        crate::parse::RawV::GroupV(es) => es,
                        _ => Seq::empty(),
                    },
                );
            }
            build_named_children(cfg, n, entries);
            proof {
                let ss2 = cfg.slots@;
                let ni = n as int;
                let es = crate::parse::entry_views(entries@);
                assert(node_rawv(ss2, ni) == crate::parse::RawV::GroupV(
                    entry_rawvs(ss2, ss2[ni].children@, ss2[ni].depth@),
                ));
                assert forall|k: int| 0 <= k < ss2[ni].children@.len() implies (
                #[trigger] ss2[ss2[ni].children@[k] as int].name) is Some && is_name(
                    ss2[ss2[ni].children@[k] as int].name->0@,
                ) by {
                    assert(ss2[ss2[ni].children@[k] as int].name->0@ == es[k].0);
                    assert(is_name(es[k].0));
                }
                assert forall|k1: int, k2: int|
                    0 <= k1 < ss2[ni].children@.len() && 0 <= k2 < ss2[ni].children@.len() && k1
                        != k2 implies #[trigger] ss2[ss2[ni].children@[k1] as int].name->0@
                    != #[trigger] ss2[ss2[ni].children@[k2] as int].name->0@ by {
                    assert(ss2[ss2[ni].children@[k1] as int].name->0@ == es[k1].0);
                    assert(ss2[ss2[ni].children@[k2] as int].name->0@ == es[k2].0);
                    assert(es[k1].0 != es[k2].0);
                }
            }
            n
        },
        crate::parse::RawValue::Array(items) => {
            let slot = Slot {
                live: true,
                kind: LibType::TypeArray,
                name,
                parent: Some(parent),
                pos: Some(pos),
                children: Vec::new(),
                value: None,
                fmt: Format::FormatDefault,
                depth: Ghost(dp + 1),
            };
            cfg.slots.push(slot);
            proof {
                let ss2 = cfg.slots@;
                assert forall|j: int, k: int|
                    #![trigger ss2[j].children@[k]]
                    0 <= j < ss2.len() && ss2[j].live && 0 <= k
                        < ss2[j].children@.len() implies child_wf(ss2, j, k) by {
                    if j < ss1.len() {
                        assert(child_wf(ss1, j, k));
                        assert(ss1[j].children@[k] as int != ss2.len() - 1);
                    }
                }
                assert forall|j: int|
                    0 <= j < ss2.len() && (#[trigger] ss2[j]).live implies ss2[j].depth@
                    < ss2.len() by {
                    if j < ss1.len() {
                        assert(ss1[j].live && ss1[j].depth@ < ss1.len());
                    }
                }
                crate::parse::lemma_items_ok(
                    match crate::parse::raw_view(*rv) {
                        crate::parse::RawV::ArrayV(vs) => vs,
                        _ => Seq::empty(),
                    },
                );
            }
            build_item_children(cfg, n, items);
            proof {
                let ss2 = cfg.slots@;
                let vs = crate::parse::raw_views(items@);
                assert(node_rawv(ss2, n as int) == crate::parse::RawV::ArrayV(
                    child_rawvs(ss2, ss2[n as int].children@, ss2[n as int].depth@),
                ));
                // uniformity of the stored kinds from uniformity of the views
                assert(crate::parse::array_ok(vs));
                assert forall|k1: int, k2: int|
                    0 <= k1 < ss2[n as int].children@.len() && 0 <= k2 < ss2[n
                        as int].children@.len() implies (#[trigger] ss2[ss2[n as int].children@[
                    k1] as int].kind) == (#[trigger] ss2[ss2[n as int].children@[k2]
                    as int].kind) && ss2[ss2[n as int].children@[k1]
                    as int].kind.spec_is_scalar() by {
                    assert(ss2[ss2[n as int].children@[k1] as int].kind == rawv_kind(vs[k1]));
                    assert(ss2[ss2[n as int].children@[k2] as int].kind == rawv_kind(vs[k2]));
                    assert(vs[k1] matches crate::parse::RawV::ScalarV(v1, f1) && (
                    vs[k2] matches crate::parse::RawV::ScalarV(v2, f2) && crate::parse::vkind(v1)
                        == crate::parse::vkind(v2)));
                }
            }
            n
        },
        crate::parse::RawValue::List(items) => {
            let slot = Slot {
                live: true,
                kind: LibType::TypeList,
                name,
                parent: Some(parent),
                pos: Some(pos),
                children: Vec::new(),
                value: None,
                fmt: Format::FormatDefault,
                depth: Ghost(dp + 1),
            };
            cfg.slots.push(slot);
            proof {
                let ss2 = cfg.slots@;
                assert forall|j: int, k: int|
                    #![trigger ss2[j].children@[k]]
                    0 <= j < ss2.len() && ss2[j].live && 0 <= k
                        < ss2[j].children@.len() implies child_wf(ss2, j, k) by {
                    if j < ss1.len() {
                        assert(child_wf(ss1, j, k));
                        assert(ss1[j].children@[k] as int != ss2.len() - 1);
                    }
                }
                assert forall|j: int|
                    0 <= j < ss2.len() && (#[trigger] ss2[j]).live implies ss2[j].depth@
                    < ss2.len() by {
                    if j < ss1.len() {
                        assert(ss1[j].live && ss1[j].depth@ < ss1.len());
                    }
                }
                crate::parse::lemma_items_ok(
                    match crate::parse::raw_view(*rv) {
                        crate::parse::RawV::ListV(vs) => vs,
                        _ => Seq::empty(),
                    },
                );
            }
            build_item_children(cfg, n, items);
            proof {
                let ss2 = cfg.slots@;
                assert(node_rawv(ss2, n as int) == crate::parse::RawV::ListV(
                    child_rawvs(ss2, ss2[n as int].children@, ss2[n as int].depth@),
                ));
            }
            n
        },
    }
}

/// Builds and attaches the named children of the freshly created
/// group node `n`, which must be the last slot of the arena.
pub(crate) fn build_named_children(
    cfg: &mut Config,
    n: usize,
    entries: &Vec<(String, crate::parse::RawValue)>,
)
    requires
        links_ok(old(cfg).slots@),
        old(cfg).slots@.len() == n + 1,
        old(cfg).slots@[n as int].live,
        old(cfg).slots@[n as int].kind == LibType::TypeGroup,
        old(cfg).slots@[n as int].children@.len() == 0,
        old(cfg).slots@[n as int].parent is Some ==> (old(cfg).slots@[n as int].parent->0 as int)
            < n,
        forall|k: int|
            0 <= k < crate::parse::entry_views(entries@).len() ==> crate::parse::rawv_ok(
                (#[trigger] crate::parse::entry_views(entries@)[k]).1,
            ),
    ensures
        ({
            let ss1 = old(cfg).slots@;
            let ss2 = final(cfg).slots@;
            let ni = n as int;
            let es = crate::parse::entry_views(entries@);
            &&& ss2.len() >= ss1.len()
            &&& (forall|j: int| 0 <= j < ni ==> #[trigger] ss2[j] == ss1[j])
            &&& ss2[ni].live == ss1[ni].live && ss2[ni].kind == ss1[ni].kind && ss2[ni].name
                == ss1[ni].name && ss2[ni].parent == ss1[ni].parent && ss2[ni].pos
                == ss1[ni].pos && ss2[ni].value == ss1[ni].value && ss2[ni].fmt == ss1[ni].fmt
                && ss2[ni].depth == ss1[ni].depth
            &&& links_ok(ss2)
            &&& region_local(ss2, ni, ss2.len() as int)
            &&& (forall|j: int| ni < j < ss2.len() ==> #[trigger] slot_wf(ss2, j))
            &&& ss2[ni].children@.len() == es.len()
            &&& (forall|k: int|
                0 <= k < ss2[ni].children@.len() ==> #[trigger] child_wf(ss2, ni, k))
            &&& (forall|k: int|
                0 <= k < es.len() ==> (#[trigger] ss2[ss2[ni].children@[k]
                    as int].name) is Some && ss2[ss2[ni].children@[k] as int].name->0@
                    == es[k].0)
            &&& entry_rawvs(ss2, ss2[ni].children@, ss2[ni].depth@) == es
            &&& final(cfg).include_dir == old(cfg).include_dir
            &&& final(cfg).options == old(cfg).options
        }),
    decreases *entries, 1int,
{
    let ghost ss0 = old(cfg).slots@;
    let ghost es = crate::parse::entry_views(entries@);
    let ghost dn = old(cfg).slots@[n as int].depth@;
    proof {
        crate::parse::lemma_entry_views(entries@);
        assert(entry_rawvs(ss0, ss0[n as int].children@, dn) =~= es.subrange(0, 0)) by {
            assert(ss0[n as int].children@.len() == 0);
            assert(es.subrange(0, 0) =~= Seq::<(Seq<char>, crate::parse::RawV)>::empty());
        }
    }
    let mut k: usize = 0;
    while k < entries.len()
        invariant
            k <= entries@.len(),
            es == crate::parse::entry_views(entries@),
            es.len() == entries@.len(),
            forall|t: int|
                0 <= t < entries@.len() ==> es[t] == ((#[trigger] entries@[t]).0@,
                crate::parse::raw_view(entries@[t].1)),
            forall|t: int| 0 <= t < es.len() ==> crate::parse::rawv_ok((#[trigger] es[t]).1),
            cfg.slots@.len() >= n + 1,
            forall|j: int| 0 <= j < n as int ==> #[trigger] cfg.slots@[j] == ss0[j],
            cfg.slots@[n as int].live == ss0[n as int].live && cfg.slots@[n as int].kind == ss0[
            n as int].kind && cfg.slots@[n as int].name == ss0[n as int].name && cfg.slots@[
            n as int].parent == ss0[n as int].parent && cfg.slots@[n as int].pos == ss0[n
                as int].pos && cfg.slots@[n as int].value == ss0[n as int].value && cfg.slots@[
            n as int].fmt == ss0[n as int].fmt && cfg.slots@[n as int].depth == ss0[n
                as int].depth,
            cfg.slots@[n as int].live,
            ss0[n as int].parent is Some ==> (ss0[n as int].parent->0 as int) < n,
            cfg.slots@[n as int].kind == LibType::TypeGroup,
            dn == cfg.slots@[n as int].depth@,
            links_ok(cfg.slots@),
            region_local(cfg.slots@, n as int, cfg.slots@.len() as int),
            forall|j: int|
                (n as int) < j < cfg.slots@.len() ==> #[trigger] slot_wf(cfg.slots@, j),
            cfg.slots@[n as int].children@.len() == k,
            forall|t: int|
                0 <= t < k ==> #[trigger] child_wf(cfg.slots@, n as int, t),
            forall|t: int|
                0 <= t < k ==> (#[trigger] cfg.slots@[cfg.slots@[n as int].children@[t]
                    as int].name) is Some && cfg.slots@[cfg.slots@[n as int].children@[t]
                    as int].name->0@ == es[t].0,
            entry_rawvs(cfg.slots@, cfg.slots@[n as int].children@, dn) == es.subrange(
                0,
                k as int,
            ),
            cfg.include_dir == old(cfg).include_dir,
            cfg.options == old(cfg).options,
        decreases entries@.len() - k,
    {
        let ghost ssa = cfg.slots@;
        let ghost lena = cfg.slots@.len() as int;
        let child_name = entries[k].0.clone();
        proof {
            assert(decreases_to!(*entries => entries@[k as int].1)) by {
                vstd::std_specs::vec::axiom_vec_decreases_to_view(*entries);
                vstd::seq::axiom_seq_index_decreases(entries@, k as int);
            }
            assert(crate::parse::rawv_ok(crate::parse::raw_view(entries@[k as int].1)));
        }
        let c = build_value(cfg, n, k, Some(child_name), &entries[k].1);
        let ghost ssb = cfg.slots@;
        let ghost lenb = cfg.slots@.len() as int;
        cfg.slots[n].children.push(c);
        proof {
            let ssc = cfg.slots@;
            let ni = n as int;
            let ci = c as int;
            assert(ci == lena);
            // only slot n changed between ssb and ssc
            assert(forall|j: int|
                0 <= j < ssc.len() && j != ni ==> #[trigger] ssc[j] == ssb[j]);
            assert(ssc[ni].children@ == ssb[ni].children@.push(c));
            // links and locality
            assert forall|j: int, t: int|
                #![trigger ssc[j].children@[t]]
                0 <= j < ssc.len() && ssc[j].live && 0 <= t
                    < ssc[j].children@.len() implies child_wf(ssc, j, t) by {
                if j == ni && t == k as int {
                    assert(ssc[ci].live && ssc[ci].parent == Some(n) && ssc[ci].pos == Some(k)
                        && ssc[ci].depth@ == dn + 1);
                } else if j == ni {
                    assert(child_wf(ssa, ni, t));
                    assert(ssc[ssa[ni].children@[t] as int] == ssa[ssa[ni].children@[t] as int])
                        by {
                        assert(ssa[ni].children@[t] as int != ni);
                    }
                } else {
                    assert(child_wf(ssb, j, t));
                }
            }
            assert forall|j: int|
                0 <= j < ssc.len() && (#[trigger] ssc[j]).live implies ssc[j].depth@
                < ssc.len() by {
                if j != ni {
                    assert(ssb[j].live && ssb[j].depth@ < ssb.len());
                }
            }
            assert(region_local(ssc, ni, ssc.len() as int)) by {
                assert forall|j: int|
                    ni <= j < ssc.len() && (#[trigger] ssc[j]).live implies forall|t: int|
                    0 <= t < ssc[j].children@.len() ==> j < ((#[trigger] ssc[j].children@[t])
                        as int) < ssc.len() by {
                    if j == ni {
                        assert forall|t: int|
                            0 <= t < ssc[ni].children@.len() implies ni < ((
                        #[trigger] ssc[ni].children@[t]) as int) < ssc.len() by {
                            if t < k as int {
                                assert(ssc[ni].children@[t] == ssa[ni].children@[t]);
                                assert(child_wf(ssa, ni, t));
                            } else {
                                assert(ssc[ni].children@[t] == c);
                            }
                        }
                    } else if j < lena {
                        assert(ssa[j].live);
                        assert forall|t: int|
                            0 <= t < ssc[j].children@.len() implies j < ((
                        #[trigger] ssc[j].children@[t]) as int) < ssc.len() by {
                            assert(ssc[j] == ssa[j]);
                            assert(j < (ssa[j].children@[t] as int) < lena);
                        }
                    } else {
                        assert(ssb[j].live);
                        assert forall|t: int|
                            0 <= t < ssc[j].children@.len() implies j < ((
                        #[trigger] ssc[j].children@[t]) as int) < ssc.len() by {
                            assert(ssc[j] == ssb[j]);
                            assert(j < (ssb[j].children@[t] as int) < ssb.len());
                        }
                    }
                }
            }
            // interior well-formedness
            assert forall|j: int| ni < j < ssc.len() implies #[trigger] slot_wf(ssc, j) by {
                if j < lena {
                    assert(slot_wf(ssa, j));
                    lemma_slot_wf_preserved(ssa, ssc, ni, j);
                } else if j == ci {
                    assert(ssb[ni].parent != Some(c)) by {
                        assert(ssb[ni] == ssa[ni]);
                        assert(ssa[ni].parent == ss0[ni].parent);
                        match ss0[ni].parent {
                            None => {},
                            Some(q) => {
                                assert((q as int) < n as int);
                                assert(q != c);
                            },
                        }
                    }
                    vstd::std_specs::vec::axiom_spec_len(&cfg.slots);
                    lemma_slot_wf_of_built(ssb, ssc, ni, ci, k);
                } else {
                    assert(slot_wf(ssb, j));
                    lemma_slot_wf_preserved(ssb, ssc, ni, j);
                }
            }
            // the accumulated views
            let pre = es.subrange(0, k as int);
            let cur = es.subrange(0, k + 1);
            assert(entry_rawvs(ssc, ssa[ni].children@, dn) == entry_rawvs(
                ssa,
                ssa[ni].children@,
                dn,
            )) by {
                assert forall|t: int| 0 <= t < ssa[ni].children@.len() implies (ni as int) < ((
                #[trigger] ssa[ni].children@[t]) as int) < lena && ssa[ssa[ni].children@[t]
                    as int].live && ssa[ssa[ni].children@[t] as int].depth@ == dn + 1 by {
                    assert(child_wf(ssa, ni, t));
                }
                assert(forall|j: int|
                    ni + 1 <= j < lena ==> #[trigger] ssc[j] == ssa[j]);
                assert(region_local(ssa, ni + 1, lena)) by {
                    assert forall|j: int|
                        ni + 1 <= j < lena && (#[trigger] ssa[j]).live implies forall|t: int|
                        0 <= t < ssa[j].children@.len() ==> j < ((#[trigger] ssa[j].children@[t])
                            as int) < lena by {}
                }
                lemma_rawvs_frame(ssa, ssc, ssa[ni].children@, dn, ni + 1, lena);
            }
            assert(node_rawv(ssc, ci) == node_rawv(ssb, ci)) by {
                assert(forall|j: int| ci <= j < lenb ==> #[trigger] ssc[j] == ssb[j]);
                assert(region_local(ssb, ci, lenb));
                lemma_rawv_frame(ssb, ssc, ci, ci, lenb);
            }
            assert(node_rawv(ssb, ci) == es[k as int].1);
            assert(ssc[ci].name->0@ == es[k as int].0);
            assert(entry_rawvs(ssc, ssc[ni].children@, dn) == entry_rawvs(
                ssc,
                ssa[ni].children@,
                dn,
            ).push((ssc[ci].name->0@, node_rawv(ssc, ci)))) by {
                assert(ssc[ni].children@.drop_last() =~= ssa[ni].children@);
                assert(ssc[ni].children@.last() == c);
                assert forall|t: int|
                    0 <= t < ssc[ni].children@.len() implies ((#[trigger] ssc[ni].children@[t])
                    as int) < ssc.len() && ssc[ssc[ni].children@[t] as int].live && ssc[ssc[
                ni].children@[t] as int].depth@ == dn + 1 by {
                    assert(child_wf(ssc, ni, t));
                }
            }
            assert(cur.drop_last() =~= pre);
            assert(cur.last() == es[k as int]);
            assert(entry_rawvs(ssc, ssc[ni].children@, dn) =~= cur);
            assert forall|t: int| 0 <= t < k + 1 implies #[trigger] child_wf(
                ssc,
                ni,
                t,
            ) by {}
            assert forall|t: int| 0 <= t < k + 1 implies (
            #[trigger] ssc[ssc[ni].children@[t] as int].name) is Some && ssc[ssc[ni].children@[t]
                as int].name->0@ == es[t].0 by {
                if t < k as int {
                    assert(ssc[ni].children@[t] == ssa[ni].children@[t]);
                    assert(child_wf(ssa, ni, t));
                    assert(ssa[ni].children@[t] as int != ni);
                    assert(ssc[ssa[ni].children@[t] as int] == ssa[ssa[ni].children@[t]
                        as int]);
                }
            }
        }
        k = k + 1;
    }
    proof {
        assert(es.subrange(0, es.len() as int) =~= es);
    }
}

/// Builds and attaches the positional children of the freshly
/// created array or list node `n`, which must be the last slot of
/// the arena.
pub(crate) fn build_item_children(
    cfg: &mut Config,
    n: usize,
    items: &Vec<crate::parse::RawValue>,
)
    requires
        links_ok(old(cfg).slots@),
        old(cfg).slots@.len() == n + 1,
        old(cfg).slots@[n as int].live,
        old(cfg).slots@[n as int].kind == LibType::TypeArray || old(cfg).slots@[n
            as int].kind == LibType::TypeList,
        old(cfg).slots@[n as int].children@.len() == 0,
        old(cfg).slots@[n as int].parent is Some ==> (old(cfg).slots@[n as int].parent->0 as int)
            < n,
        forall|k: int|
            0 <= k < crate::parse::raw_views(items@).len() ==> crate::parse::rawv_ok(
                #[trigger] crate::parse::raw_views(items@)[k],
            ),
    ensures
        ({
            let ss1 = old(cfg).slots@;
            let ss2 = final(cfg).slots@;
            let ni = n as int;
            let vs = crate::parse::raw_views(items@);
            &&& ss2.len() >= ss1.len()
            &&& (forall|j: int| 0 <= j < ni ==> #[trigger] ss2[j] == ss1[j])
            &&& ss2[ni].live == ss1[ni].live && ss2[ni].kind == ss1[ni].kind && ss2[ni].name
                == ss1[ni].name && ss2[ni].parent == ss1[ni].parent && ss2[ni].pos
                == ss1[ni].pos && ss2[ni].value == ss1[ni].value && ss2[ni].fmt == ss1[ni].fmt
                && ss2[ni].depth == ss1[ni].depth
            &&& links_ok(ss2)
            &&& region_local(ss2, ni, ss2.len() as int)
            &&& (forall|j: int| ni < j < ss2.len() ==> #[trigger] slot_wf(ss2, j))
            &&& ss2[ni].children@.len() == vs.len()
            &&& (forall|k: int|
                0 <= k < ss2[ni].children@.len() ==> #[trigger] child_wf(ss2, ni, k))
            &&& (forall|k: int|
                0 <= k < vs.len() ==> (#[trigger] ss2[ss2[ni].children@[k]
                    as int].name) is None)
            &&& (forall|k: int|
                0 <= k < vs.len() ==> (#[trigger] ss2[ss2[ni].children@[k] as int].kind)
                    == rawv_kind(vs[k]))
            &&& child_rawvs(ss2, ss2[ni].children@, ss2[ni].depth@) == vs
            &&& final(cfg).include_dir == old(cfg).include_dir
            &&& final(cfg).options == old(cfg).options
        }),
    decreases *items, 1int,
{
    let ghost ss0 = old(cfg).slots@;
    let ghost vs = crate::parse::raw_views(items@);
    let ghost dn = old(cfg).slots@[n as int].depth@;
    proof {
        crate::parse::lemma_raw_views(items@);
        assert(child_rawvs(ss0, ss0[n as int].children@, dn) =~= vs.subrange(0, 0)) by {
            assert(ss0[n as int].children@.len() == 0);
            assert(vs.subrange(0, 0) =~= Seq::<crate::parse::RawV>::empty());
        }
    }
    let mut k: usize = 0;
    while k < items.len()
        invariant
            k <= items@.len(),
            vs == crate::parse::raw_views(items@),
            vs.len() == items@.len(),
            forall|t: int|
                0 <= t < items@.len() ==> vs[t] == crate::parse::raw_view(
                    #[trigger] items@[t],
                ),
            forall|t: int| 0 <= t < vs.len() ==> crate::parse::rawv_ok(#[trigger] vs[t]),
            cfg.slots@.len() >= n + 1,
            forall|j: int| 0 <= j < n as int ==> #[trigger] cfg.slots@[j] == ss0[j],
            cfg.slots@[n as int].live == ss0[n as int].live && cfg.slots@[n as int].kind == ss0[
            n as int].kind && cfg.slots@[n as int].name == ss0[n as int].name && cfg.slots@[
            n as int].parent == ss0[n as int].parent && cfg.slots@[n as int].pos == ss0[n
                as int].pos && cfg.slots@[n as int].value == ss0[n as int].value && cfg.slots@[
            n as int].fmt == ss0[n as int].fmt && cfg.slots@[n as int].depth == ss0[n
                as int].depth,
            cfg.slots@[n as int].live,
            ss0[n as int].parent is Some ==> (ss0[n as int].parent->0 as int) < n,
            dn == cfg.slots@[n as int].depth@,
            links_ok(cfg.slots@),
            region_local(cfg.slots@, n as int, cfg.slots@.len() as int),
            forall|j: int|
                (n as int) < j < cfg.slots@.len() ==> #[trigger] slot_wf(cfg.slots@, j),
            cfg.slots@[n as int].children@.len() == k,
            forall|t: int|
                0 <= t < k ==> #[trigger] child_wf(cfg.slots@, n as int, t),
            forall|t: int|
                0 <= t < k ==> (#[trigger] cfg.slots@[cfg.slots@[n as int].children@[t]
                    as int].name) is None,
            forall|t: int|
                0 <= t < k ==> (#[trigger] cfg.slots@[cfg.slots@[n as int].children@[t]
                    as int].kind) == rawv_kind(vs[t]),
            child_rawvs(cfg.slots@, cfg.slots@[n as int].children@, dn) == vs.subrange(
                0,
                k as int,
            ),
            cfg.include_dir == old(cfg).include_dir,
            cfg.options == old(cfg).options,
        decreases items@.len() - k,
    {
        let ghost ssa = cfg.slots@;
        let ghost lena = cfg.slots@.len() as int;
        proof {
            assert(decreases_to!(*items => items@[k as int])) by {
                vstd::std_specs::vec::axiom_vec_decreases_to_view(*items);
                vstd::seq::axiom_seq_index_decreases(items@, k as int);
            }
            assert(crate::parse::rawv_ok(crate::parse::raw_view(items@[k as int])));
        }
        let c = build_value(cfg, n, k, None, &items[k]);
        let ghost ssb = cfg.slots@;
        let ghost lenb = cfg.slots@.len() as int;
        cfg.slots[n].children.push(c);
        proof {
            let ssc = cfg.slots@;
            let ni = n as int;
            let ci = c as int;
            assert(ci == lena);
            assert(forall|j: int|
                0 <= j < ssc.len() && j != ni ==> #[trigger] ssc[j] == ssb[j]);
            assert(ssc[ni].children@ == ssb[ni].children@.push(c));
            assert forall|j: int, t: int|
                #![trigger ssc[j].children@[t]]
                0 <= j < ssc.len() && ssc[j].live && 0 <= t
                    < ssc[j].children@.len() implies child_wf(ssc, j, t) by {
                if j == ni && t == k as int {
                    assert(ssc[ci].live && ssc[ci].parent == Some(n) && ssc[ci].pos == Some(k)
                        && ssc[ci].depth@ == dn + 1);
                } else if j == ni {
                    assert(child_wf(ssa, ni, t));
                    assert(ssc[ssa[ni].children@[t] as int] == ssa[ssa[ni].children@[t] as int])
                        by {
                        assert(ssa[ni].children@[t] as int != ni);
                    }
                } else {
                    assert(child_wf(ssb, j, t));
                }
            }
            assert forall|j: int|
                0 <= j < ssc.len() && (#[trigger] ssc[j]).live implies ssc[j].depth@
                < ssc.len() by {
                if j != ni {
                    assert(ssb[j].live && ssb[j].depth@ < ssb.len());
                }
            }
            assert(region_local(ssc, ni, ssc.len() as int)) by {
                assert forall|j: int|
                    ni <= j < ssc.len() && (#[trigger] ssc[j]).live implies forall|t: int|
                    0 <= t < ssc[j].children@.len() ==> j < ((#[trigger] ssc[j].children@[t])
                        as int) < ssc.len() by {
                    if j == ni {
                        assert forall|t: int|
                            0 <= t < ssc[ni].children@.len() implies ni < ((
                        #[trigger] ssc[ni].children@[t]) as int) < ssc.len() by {
                            if t < k as int {
                                assert(ssc[ni].children@[t] == ssa[ni].children@[t]);
                                assert(child_wf(ssa, ni, t));
                            } else {
                                assert(ssc[ni].children@[t] == c);
                            }
                        }
                    } else if j < lena {
                        assert(ssa[j].live);
                        assert forall|t: int|
                            0 <= t < ssc[j].children@.len() implies j < ((
                        #[trigger] ssc[j].children@[t]) as int) < ssc.len() by {
                            assert(ssc[j] == ssa[j]);
                            assert(j < (ssa[j].children@[t] as int) < lena);
                        }
                    } else {
                        assert(ssb[j].live);
                        assert forall|t: int|
                            0 <= t < ssc[j].children@.len() implies j < ((
                        #[trigger] ssc[j].children@[t]) as int) < ssc.len() by {
                            assert(ssc[j] == ssb[j]);
                            assert(j < (ssb[j].children@[t] as int) < ssb.len());
                        }
                    }
                }
            }
            assert forall|j: int| ni < j < ssc.len() implies #[trigger] slot_wf(ssc, j) by {
                if j < lena {
                    assert(slot_wf(ssa, j));
                    lemma_slot_wf_preserved(ssa, ssc, ni, j);
                } else if j == ci {
                    assert(ssb[ni].parent != Some(c)) by {
                        assert(ssb[ni] == ssa[ni]);
                        assert(ssa[ni].parent == ss0[ni].parent);
                        match ss0[ni].parent {
                            None => {},
                            Some(q) => {
                                assert((q as int) < n as int);
                                assert(q != c);
                            },
                        }
                    }
                    vstd::std_specs::vec::axiom_spec_len(&cfg.slots);
                    lemma_slot_wf_of_built(ssb, ssc, ni, ci, k);
                } else {
                    assert(slot_wf(ssb, j));
                    lemma_slot_wf_preserved(ssb, ssc, ni, j);
                }
            }
            let pre = vs.subrange(0, k as int);
            let cur = vs.subrange(0, k + 1);
            assert(child_rawvs(ssc, ssa[ni].children@, dn) == child_rawvs(
                ssa,
                ssa[ni].children@,
                dn,
            )) by {
                assert forall|t: int| 0 <= t < ssa[ni].children@.len() implies (ni as int) < ((
                #[trigger] ssa[ni].children@[t]) as int) < lena && ssa[ssa[ni].children@[t]
                    as int].live && ssa[ssa[ni].children@[t] as int].depth@ == dn + 1 by {
                    assert(child_wf(ssa, ni, t));
                }
                assert(forall|j: int|
                    ni + 1 <= j < lena ==> #[trigger] ssc[j] == ssa[j]);
                assert(region_local(ssa, ni + 1, lena)) by {
                    assert forall|j: int|
                        ni + 1 <= j < lena && (#[trigger] ssa[j]).live implies forall|t: int|
                        0 <= t < ssa[j].children@.len() ==> j < ((#[trigger] ssa[j].children@[t])
                            as int) < lena by {}
                }
                assert(dn < ssa.len() && dn < ssc.len()) by {
                    assert(ssa[ni].live && ssa[ni].depth@ < ssa.len());
                    assert(ssc[ni].live && ssc[ni].depth@ < ssc.len());
                }
                lemma_rawvs_frame(ssa, ssc, ssa[ni].children@, dn, ni + 1, lena);
            }
            assert(node_rawv(ssc, ci) == node_rawv(ssb, ci)) by {
                assert(forall|j: int| ci <= j < lenb ==> #[trigger] ssc[j] == ssb[j]);
                assert(region_local(ssb, ci, lenb));
                lemma_rawv_frame(ssb, ssc, ci, ci, lenb);
            }
            assert(node_rawv(ssb, ci) == vs[k as int]);
            assert(child_rawvs(ssc, ssc[ni].children@, dn) == child_rawvs(
                ssc,
                ssa[ni].children@,
                dn,
            ).push(node_rawv(ssc, ci))) by {
                assert(ssc[ni].children@.drop_last() =~= ssa[ni].children@);
                assert(ssc[ni].children@.last() == c);
                assert forall|t: int|
                    0 <= t < ssc[ni].children@.len() implies ((#[trigger] ssc[ni].children@[t])
                    as int) < ssc.len() && ssc[ssc[ni].children@[t] as int].live && ssc[ssc[
                ni].children@[t] as int].depth@ == dn + 1 by {
                    assert(child_wf(ssc, ni, t));
                }
            }
            assert(cur.drop_last() =~= pre);
            assert(cur.last() == vs[k as int]);
            assert(child_rawvs(ssc, ssc[ni].children@, dn) =~= cur);
            assert forall|t: int| 0 <= t < k + 1 implies (
            #[trigger] ssc[ssc[ni].children@[t] as int].name) is None && ssc[ssc[ni].children@[t]
                as int].kind == rawv_kind(vs[t]) by {
                if t < k as int {
                    assert(ssc[ni].children@[t] == ssa[ni].children@[t]);
                    assert(child_wf(ssa, ni, t));
                    assert(ssa[ni].children@[t] as int != ni);
                    assert(ssc[ssa[ni].children@[t] as int] == ssa[ssa[ni].children@[t]
                        as int]);
                }
            }
        }
        k = k + 1;
    }
    proof {
        assert(vs.subrange(0, vs.len() as int) =~= vs);
    }
}

/// An ordered, finite walk over the children of one node, captured
/// when the walk was created.  Each step hands out the next child's
/// handle; a fresh walk on the same node reflects the children at
/// that later time.
pub struct SettingIter {
    items: Vec<Setting>,
    count: usize,
}

impl SettingIter {
    /// The captured child handles, in sibling order.
    pub closed spec fn items_view(self) -> Seq<Setting> {
        self.items@
    }

    /// How many children the walk has already yielded.
    pub closed spec fn count_view(self) -> int {
        self.count as int
    }

    /// The next child handle, or `None` once all children captured at
    /// creation have been yielded.  A child removed since the walk
    /// began ends the walk early instead of handing out a dead
    /// handle.
    pub fn next(&mut self, cfg: &Config) -> (r: Option<Setting>)
        requires
            cfg.wf(),
        ensures
            final(self).items_view() == old(self).items_view(),
            old(self).count_view() >= old(self).items_view().len() ==> r is None && final(self).count_view() == old(self).count_view(),
            old(self).count_view() < old(self).items_view().len() ==> {
                if cfg.valid(old(self).items_view()[old(self).count_view()]) {
                    r == Some(old(self).items_view()[old(self).count_view()]) && final(self).count_view() == old(self).count_view() + 1
                } else {
                    r is None && final(self).count_view() == old(self).count_view()
                }
            },
    {
        if self.count >= self.items.len() {
            return None;
        }
        let item = self.items[self.count];
        if !cfg.is_valid(item) {
            return None;
        }
        self.count = self.count + 1;
        Some(item)
    }
}

/// Resolution over concatenated segment sequences composes.
pub(crate) proof fn lemma_resolve_segs_append(
    ss: Seq<Slot>,
    i: int,
    s1: Seq<Seq<char>>,
    s2: Seq<Seq<char>>,
)
    ensures
        resolve_segs(ss, i, s1 + s2) == match resolve_segs(ss, i, s1) {
            Some(j) => resolve_segs(ss, j, s2),
            None => None::<int>,
        },
    decreases s1.len(),
{
    if s1.len() == 0 {
        assert(s1 + s2 =~= s2);
    } else {
        assert((s1 + s2)[0] == s1[0]);
        match step_resolve(ss, i, s1[0]) {
            None => {
                assert((s1 + s2).len() > 0);
            },
            Some(j) => {
                assert((s1 + s2).drop_first() =~= s1.drop_first() + s2);
                lemma_resolve_segs_append(ss, j, s1.drop_first(), s2);
            },
        }
    }
}

/// Path resolution is deterministic — it is a function of the tree,
/// the start node and the path — and compositional: a path joined
/// from two parts with a dot resolves by resolving the first part,
/// then the second from wherever that landed.
pub proof fn lemma_resolve_compose(cfg: Config, s: Setting, p: Seq<char>, q: Seq<char>)
    requires
        cfg.wf(),
        cfg.valid(s),
        p.len() > 0,
        q.len() > 0,
        p != seq!['.'],
        q != seq!['.'],
    ensures
        cfg.resolve_spec(s, p + seq!['.'] + q) == match cfg.resolve_spec(s, p) {
            Some(t) => cfg.resolve_spec(t, q),
            None => None::<Setting>,
        },
{
    let whole = p + seq!['.'] + q;
    assert(whole.len() > 1);
    assert(whole != seq!['.']) by {
        if whole == seq!['.'] {
            assert(whole.len() == 1);
        }
    }
    crate::path::lemma_split_join(p, q);
    let ss = cfg.slots@;
    vstd::std_specs::vec::axiom_spec_len(&cfg.slots);
    lemma_resolve_segs_append(
        ss,
        s.idx as int,
        crate::path::split_from(p, 0),
        crate::path::split_from(q, 0),
    );
    assert(resolve_segs(ss, s.idx as int, crate::path::split_from(whole, 0)) == resolve_segs(
        ss,
        s.idx as int,
        crate::path::split_from(p, 0) + crate::path::split_from(q, 0),
    ));
    lemma_resolve_attached(ss, s.idx as int, crate::path::split_from(p, 0));
    match resolve_segs(ss, s.idx as int, crate::path::split_from(p, 0)) {
        Some(j) => {
            assert(0 <= j < ss.len());
            assert((j as usize) as int == j);
        },
        None => {},
    }
}

/// After any sequence of insertions and removals, the positions of an
/// aggregate's children are exactly `0 .. len - 1`, contiguous and in
/// order.
pub proof fn lemma_index_contiguity(cfg: Config, s: Setting)
    requires
        cfg.wf(),
        cfg.valid(s),
    ensures
        forall|k: int|
            0 <= k < cfg.node_child_count(s) ==> cfg.node_pos(#[trigger] cfg.node_child(s, k))
                == Some(k as usize),
{
    assert(slot_wf(cfg.slots@, s.idx as int));
    assert forall|k: int| 0 <= k < cfg.node_child_count(s) implies cfg.node_pos(
        #[trigger] cfg.node_child(s, k),
    ) == Some(k as usize) by {
        assert(child_wf(cfg.slots@, s.idx as int, k));
    }
}

/// The round-trip law: the configuration text a well-formed document
/// writes parses back to exactly the document's own model — same
/// names, kinds, values, display hints and structure.
pub proof fn lemma_round_trip(cfg: Config)
    requires
        cfg.wf(),
    ensures
        crate::parse::parse_doc(crate::ser::ser_entries(cfg.doc_view())) == Some(cfg.doc_view()),
{
    let ss = cfg.slots@;
    lemma_wf_links(ss);
    assert(slot_wf(ss, 0));
    let cs = ss[0].children@;
    assert forall|k: int| 0 <= k < cs.len() implies ((#[trigger] cs[k]) as int) < ss.len()
        && ss[cs[k] as int].live && ss[cs[k] as int].depth@ == 1 by {
        assert(child_wf(ss, 0, k));
    }
    let es = cfg.doc_view();
    lemma_entry_rawvs(ss, cs, 0);
    lemma_rawvs_ok(ss, cs, 0, 0);
    assert forall|k: int| 0 <= k < es.len() implies crate::parse::rawv_ok(
        (#[trigger] es[k]).1,
    ) && is_name(es[k].0) by {
        assert(es[k] == (ss[cs[k] as int].name->0@, node_rawv(ss, cs[k] as int)));
        assert(is_name(ss[cs[k] as int].name->0@));
    }
    assert forall|k1: int, k2: int|
        0 <= k1 < es.len() && 0 <= k2 < es.len() && k1 != k2 implies (#[trigger] es[k1]).0 != (
    #[trigger] es[k2]).0 by {
        assert(es[k1] == (ss[cs[k1] as int].name->0@, node_rawv(ss, cs[k1] as int)));
        assert(es[k2] == (ss[cs[k2] as int].name->0@, node_rawv(ss, cs[k2] as int)));
        assert(ss[cs[k1] as int].name->0@ != ss[cs[k2] as int].name->0@);
    }
    crate::roundtrip::lemma_parse_of_written(es);
}

/// The link conditions that the tree-model recursion rests on: every
/// live slot's depth is bounded and its children are live, linked
/// back, and one level deeper.
pub(crate) open spec fn links_ok(ss: Seq<Slot>) -> bool {
    &&& (forall|j: int| 0 <= j < ss.len() && (#[trigger] ss[j]).live ==> ss[j].depth@ < ss.len())
    &&& (forall|j: int, k: int|
        #![trigger ss[j].children@[k]]
        0 <= j < ss.len() && ss[j].live && 0 <= k < ss[j].children@.len() ==> child_wf(ss, j, k))
}

/// Well-formedness gives the link conditions.
pub(crate) proof fn lemma_wf_links(ss: Seq<Slot>)
    requires
        slots_wf(ss),
    ensures
        links_ok(ss),
{
    assert forall|j: int| 0 <= j < ss.len() && (#[trigger] ss[j]).live implies ss[j].depth@
        < ss.len() by {
        assert(slot_wf(ss, j));
    }
    assert forall|j: int, k: int|
        #![trigger ss[j].children@[k]]
        0 <= j < ss.len() && ss[j].live && 0 <= k
            < ss[j].children@.len() implies child_wf(ss, j, k) by {
        assert(slot_wf(ss, j));
    }
}

/// The raw tree rooted at live slot `i`: its kind, payload and
/// display hint, and its children's raw trees in order.
pub(crate) open spec fn node_rawv(ss: Seq<Slot>, i: int) -> crate::parse::RawV
    decreases ss.len() - ss[i].depth@, 1int, 0int,
    when links_ok(ss) && 0 <= i < ss.len() && ss[i].live
{
    let s = ss[i];
    if s.kind == LibType::TypeGroup {
        crate::parse::RawV::GroupV(entry_rawvs(ss, s.children@, s.depth@))
    } else if s.kind == LibType::TypeArray {
        crate::parse::RawV::ArrayV(child_rawvs(ss, s.children@, s.depth@))
    } else if s.kind == LibType::TypeList {
        crate::parse::RawV::ListV(child_rawvs(ss, s.children@, s.depth@))
    } else {
        crate::parse::RawV::ScalarV(
            match s.value {
                Some(v) => v@,
                None => ValueV::IntV(0),
            },
            s.fmt,
        )
    }
}

/// The raw trees of the slots `cs`, all at depth `d + 1`.
pub(crate) open spec fn child_rawvs(ss: Seq<Slot>, cs: Seq<usize>, d: nat) -> Seq<
    crate::parse::RawV,
>
    decreases ss.len() - d, 0int, cs.len(),
    when links_ok(ss) && d < ss.len() && (forall|k: int|
        0 <= k < cs.len() ==> ((#[trigger] cs[k]) as int) < ss.len() && ss[cs[k] as int].live
            && ss[cs[k] as int].depth@ == d + 1)
{
    if cs.len() == 0 {
        Seq::empty()
    } else {
        child_rawvs(ss, cs.drop_last(), d).push(node_rawv(ss, cs.last() as int))
    }
}

/// The named raw trees of the slots `cs`, all at depth `d + 1`.
pub(crate) open spec fn entry_rawvs(ss: Seq<Slot>, cs: Seq<usize>, d: nat) -> Seq<
    (Seq<char>, crate::parse::RawV),
>
    decreases ss.len() - d, 0int, cs.len(),
    when links_ok(ss) && d < ss.len() && (forall|k: int|
        0 <= k < cs.len() ==> ((#[trigger] cs[k]) as int) < ss.len() && ss[cs[k] as int].live
            && ss[cs[k] as int].depth@ == d + 1)
{
    if cs.len() == 0 {
        Seq::empty()
    } else {
        entry_rawvs(ss, cs.drop_last(), d).push(
            (ss[cs.last() as int].name->0@, node_rawv(ss, cs.last() as int)),
        )
    }
}

/// Child raw trees, element by element.
pub(crate) proof fn lemma_child_rawvs(ss: Seq<Slot>, cs: Seq<usize>, d: nat)
    requires
        links_ok(ss),
        d < ss.len(),
        forall|k: int|
            0 <= k < cs.len() ==> ((#[trigger] cs[k]) as int) < ss.len() && ss[cs[k]
                as int].live && ss[cs[k] as int].depth@ == d + 1,
    ensures
        child_rawvs(ss, cs, d).len() == cs.len(),
        forall|k: int|
            0 <= k < cs.len() ==> child_rawvs(ss, cs, d)[k] == node_rawv(
                ss,
                (#[trigger] cs[k]) as int,
            ),
    decreases cs.len(),
{
    if cs.len() > 0 {
        lemma_child_rawvs(ss, cs.drop_last(), d);
        assert forall|k: int| 0 <= k < cs.len() implies child_rawvs(ss, cs, d)[k] == node_rawv(
            ss,
            (#[trigger] cs[k]) as int,
        ) by {
            if k < cs.len() - 1 {
                assert(cs.drop_last()[k] == cs[k]);
            }
        }
    }
}

/// Named child raw trees, entry by entry.
pub(crate) proof fn lemma_entry_rawvs(ss: Seq<Slot>, cs: Seq<usize>, d: nat)
    requires
        links_ok(ss),
        d < ss.len(),
        forall|k: int|
            0 <= k < cs.len() ==> ((#[trigger] cs[k]) as int) < ss.len() && ss[cs[k]
                as int].live && ss[cs[k] as int].depth@ == d + 1,
    ensures
        entry_rawvs(ss, cs, d).len() == cs.len(),
        forall|k: int|
            0 <= k < cs.len() ==> entry_rawvs(ss, cs, d)[k] == (
                ss[(#[trigger] cs[k]) as int].name->0@,
                node_rawv(ss, cs[k] as int),
            ),
    decreases cs.len(),
{
    if cs.len() > 0 {
        lemma_entry_rawvs(ss, cs.drop_last(), d);
        assert forall|k: int| 0 <= k < cs.len() implies entry_rawvs(ss, cs, d)[k] == (
            ss[(#[trigger] cs[k]) as int].name->0@,
            node_rawv(ss, cs[k] as int),
        ) by {
            if k < cs.len() - 1 {
                assert(cs.drop_last()[k] == cs[k]);
            }
        }
    }
}

/// The slots of `[lo, hi)` form a closed region: every live slot's
/// children stay strictly inside it, above their parent.
pub(crate) open spec fn region_local(ss: Seq<Slot>, lo: int, hi: int) -> bool {
    forall|j: int|
        lo <= j < hi && (#[trigger] ss[j]).live ==> forall|k: int|
            0 <= k < ss[j].children@.len() ==> j < ((#[trigger] ss[j].children@[k]) as int) < hi
}

/// The raw tree of a node in a closed, untouched region is untouched.
pub(crate) proof fn lemma_rawv_frame(ss1: Seq<Slot>, ss2: Seq<Slot>, i: int, lo: int, hi: int)
    requires
        links_ok(ss1),
        links_ok(ss2),
        0 <= lo <= i < hi <= ss1.len(),
        hi <= ss2.len(),
        forall|j: int| lo <= j < hi ==> #[trigger] ss2[j] == ss1[j],
        region_local(ss1, lo, hi),
        ss1[i].live,
    ensures
        node_rawv(ss2, i) == node_rawv(ss1, i),
    decreases ss1.len() - ss1[i].depth@, 1int,
{
    let s = ss1[i];
    assert(ss2[i] == ss1[i]);
    assert forall|k: int| 0 <= k < s.children@.len() implies lo < ((
    #[trigger] s.children@[k]) as int) < hi && ss1[s.children@[k] as int].live && ss1[s.children@[
    k] as int].depth@ == s.depth@ + 1 by {
        assert(child_wf(ss1, i, k));
    }
    lemma_rawvs_frame(ss1, ss2, s.children@, s.depth@, lo, hi);
}

/// The raw trees of children in a closed, untouched region are
/// untouched.
pub(crate) proof fn lemma_rawvs_frame(
    ss1: Seq<Slot>,
    ss2: Seq<Slot>,
    cs: Seq<usize>,
    d: nat,
    lo: int,
    hi: int,
)
    requires
        links_ok(ss1),
        links_ok(ss2),
        0 <= lo <= hi <= ss1.len(),
        hi <= ss2.len(),
        d < ss1.len(),
        d < ss2.len(),
        forall|j: int| lo <= j < hi ==> #[trigger] ss2[j] == ss1[j],
        region_local(ss1, lo, hi),
        forall|k: int|
            0 <= k < cs.len() ==> lo <= ((#[trigger] cs[k]) as int) < hi && ss1[cs[k]
                as int].live && ss1[cs[k] as int].depth@ == d + 1,
    ensures
        child_rawvs(ss2, cs, d) == child_rawvs(ss1, cs, d),
        entry_rawvs(ss2, cs, d) == entry_rawvs(ss1, cs, d),
    decreases ss1.len() - d, 0int, cs.len(),
{
    assert forall|k: int| 0 <= k < cs.len() implies ((#[trigger] cs[k]) as int) < ss2.len()
        && ss2[cs[k] as int].live && ss2[cs[k] as int].depth@ == d + 1 by {
        assert(ss2[cs[k] as int] == ss1[cs[k] as int]);
    }
    if cs.len() > 0 {
        let c = cs.last() as int;
        lemma_rawvs_frame(ss1, ss2, cs.drop_last(), d, lo, hi);
        assert(ss1[c].live && ss1[c].depth@ == d + 1);
        lemma_rawv_frame_at(ss1, ss2, c, lo, hi);
        assert(ss2[c] == ss1[c]);
        assert(child_rawvs(ss2, cs, d) == child_rawvs(ss2, cs.drop_last(), d).push(
            node_rawv(ss2, c),
        ));
        assert(entry_rawvs(ss2, cs, d) == entry_rawvs(ss2, cs.drop_last(), d).push(
            (ss2[c].name->0@, node_rawv(ss2, c)),
        ));
    } else {
        assert(child_rawvs(ss2, cs, d) =~= child_rawvs(ss1, cs, d));
        assert(entry_rawvs(ss2, cs, d) =~= entry_rawvs(ss1, cs, d));
    }
}

/// As [`lemma_rawv_frame`], measured so that it fits under the child
/// recursion.
pub(crate) proof fn lemma_rawv_frame_at(ss1: Seq<Slot>, ss2: Seq<Slot>, i: int, lo: int, hi: int)
    requires
        links_ok(ss1),
        links_ok(ss2),
        0 <= lo <= i < hi <= ss1.len(),
        hi <= ss2.len(),
        forall|j: int| lo <= j < hi ==> #[trigger] ss2[j] == ss1[j],
        region_local(ss1, lo, hi),
        ss1[i].live,
    ensures
        node_rawv(ss2, i) == node_rawv(ss1, i),
    decreases ss1.len() - ss1[i].depth@, 1int, 0int,
{
    let s = ss1[i];
    assert(ss2[i] == ss1[i]);
    assert forall|k: int| 0 <= k < s.children@.len() implies lo < ((
    #[trigger] s.children@[k]) as int) < hi && ss1[s.children@[k] as int].live && ss1[s.children@[
    k] as int].depth@ == s.depth@ + 1 by {
        assert(child_wf(ss1, i, k));
    }
    assert(s.depth@ < ss1.len());
    assert(s.depth@ < ss2.len()) by {
        assert(ss2[i].live);
        assert(ss2[i].depth@ < ss2.len());
    }
    lemma_rawvs_frame(ss1, ss2, s.children@, s.depth@, lo, hi);
}

/// The kind of node a raw tree builds.
pub(crate) open spec fn rawv_kind(rv: crate::parse::RawV) -> LibType {
    match rv {
        crate::parse::RawV::ScalarV(v, _) => crate::parse::vkind(v),
        crate::parse::RawV::GroupV(_) => LibType::TypeGroup,
        crate::parse::RawV::ArrayV(_) => LibType::TypeArray,
        crate::parse::RawV::ListV(_) => LibType::TypeList,
    }
}

/// The payload a freshly added node of kind `t` starts with.
fn default_value(t: LibType) -> (r: Option<Value>)
    ensures
        (r is Some) == t.spec_is_scalar(),
        match r {
            Some(v) => Some(v@) == default_value_v(t) && value_ok(v) && v.spec_kind() == t,
            None => default_value_v(t) is None,
        },
{
    match t {
        LibType::TypeInt => Some(Value::IntVal(0)),
        LibType::TypeInt64 => Some(Value::Int64Val(0)),
        LibType::TypeFloat => {
            let s = String::from_str("0.0");
            proof {
                reveal_strlit("0.0");
                assert(is_float_lit("0.0"@)) by {
                    reveal_with_fuel(crate::text::digits_end, 5);
                    assert("0.0"@.len() == 3);
                }
            }
            Some(Value::FloatVal(s))
        },
        LibType::TypeString => Some(Value::StrVal(String::new())),
        LibType::TypeBoolean => Some(Value::BoolVal(false)),
        _ => None,
    }
}

impl Config {
    /// Some live child of `s` carries the name `nm`.
    pub closed spec fn has_named_child(self, s: Setting, nm: Seq<char>) -> bool {
        exists|k: int|
            0 <= k < self.slots@[s.idx as int].children@.len() && ((
            #[trigger] self.slots@[self.slots@[s.idx as int].children@[k] as int].name) matches
                Some(x) && x@ == nm)
    }

    /// The node a path reaches from `s`: the empty path and `.`
    /// denote `s` itself; otherwise the dot-separated segments are
    /// resolved one by one, digits by position, names within groups.
    /// Any missing segment, kind mismatch or out-of-range position
    /// yields `None` — no partial results.
    pub closed spec fn resolve_spec(self, s: Setting, path: Seq<char>) -> Option<Setting> {
        if path.len() == 0 || path == seq!['.'] {
            Some(s)
        } else {
            match resolve_segs(self.slots@, s.idx as int, crate::path::split_from(path, 0)) {
                Some(j) => Some(Setting { idx: j as usize }),
                None => None,
            }
        }
    }

    /// Node `a` lies on the parent chain of `u` (including `u`
    /// itself): removing `a` invalidates `u`.
    pub closed spec fn descends_from(self, u: Setting, a: Setting) -> bool {
        &&& (u.idx as int) < self.slots@.len()
        &&& ancestor_in(self.slots@, u.idx as int, a.idx as int)
    }

    /// What a successful `remove_at(k)` leaves behind: `self` is
    /// `prev` with child `k` of `s` removed.  The removed subtree's
    /// handles are stale, later siblings moved one position down, and
    /// everything else is untouched.
    pub closed spec fn remove_result(self, prev: Config, s: Setting, k: int) -> bool {
        let c = prev.node_child(s, k);
        &&& self.wf()
        &&& self.node_child_count(s) + 1 == prev.node_child_count(s)
        &&& (forall|m: int|
            0 <= m < k ==> #[trigger] self.node_child(s, m) == prev.node_child(s, m))
        &&& (forall|m: int|
            k <= m < self.node_child_count(s) ==> #[trigger] self.node_child(s, m)
                == prev.node_child(s, m + 1))
        &&& !self.valid(c)
        &&& (forall|u: Setting| #[trigger]
            self.valid(u) == (prev.valid(u) && !prev.descends_from(u, c)))
        &&& (forall|u: Setting|
            self.valid(u) ==> #[trigger] self.node_kind(u) == prev.node_kind(u)
                && self.node_name(u) == prev.node_name(u) && self.node_value(u)
                == prev.node_value(u) && self.node_fmt(u) == prev.node_fmt(u)
                && self.node_parent(u) == prev.node_parent(u))
        &&& (forall|u: Setting|
            self.valid(u) && u != s ==> #[trigger] self.node_child_count(u)
                == prev.node_child_count(u) && (forall|m: int|
                0 <= m < self.node_child_count(u) ==> #[trigger] self.node_child(u, m)
                    == prev.node_child(u, m)))
        &&& (forall|u: Setting|
            self.valid(u) ==> #[trigger] self.node_pos(u) == (if prev.node_parent(u) == Some(s)
                && k < prev.node_pos(u)->0 {
                Some((prev.node_pos(u)->0 - 1) as usize)
            } else {
                prev.node_pos(u)
            }))
        &&& self.include_dir_view() == prev.include_dir_view()
        &&& self.options_view() == prev.options_view()
    }

    /// What a successful `add` leaves behind: `self` is `prev` with
    /// one fresh child `h` of kind `t` and name `nm` appended to the
    /// children of `s`; everything else — every other node, every
    /// other handle's validity, the options and the include directory
    /// — is untouched.
    pub closed spec fn add_result(
        self,
        prev: Config,
        s: Setting,
        t: LibType,
        nm: Option<Seq<char>>,
        h: Setting,
    ) -> bool {
        &&& self.wf()
        &&& !prev.valid(h)
        &&& self.valid(h)
        &&& self.node_kind(h) == t
        &&& self.node_name(h) == nm
        &&& self.node_pos(h) == Some(prev.node_child_count(s) as usize)
        &&& self.node_child_count(h) == 0
        &&& self.node_value(h) == default_value_v(t)
        &&& self.node_fmt(h) == Format::FormatDefault
        &&& self.node_parent(h) == Some(s)
        &&& self.node_child_count(s) == prev.node_child_count(s) + 1
        &&& (forall|k: int|
            0 <= k < prev.node_child_count(s) ==> #[trigger] self.node_child(s, k)
                == prev.node_child(s, k))
        &&& self.node_child(s, prev.node_child_count(s) as int) == h
        &&& (forall|u: Setting| u != h ==> #[trigger] self.valid(u) == prev.valid(u))
        &&& (forall|u: Setting|
            prev.valid(u) ==> #[trigger] self.node_kind(u) == prev.node_kind(u)
                && self.node_name(u) == prev.node_name(u) && self.node_value(u)
                == prev.node_value(u) && self.node_fmt(u) == prev.node_fmt(u) && self.node_pos(u)
                == prev.node_pos(u) && self.node_parent(u) == prev.node_parent(u))
        &&& (forall|u: Setting|
            prev.valid(u) && u != s ==> #[trigger] self.node_child_count(u)
                == prev.node_child_count(u) && (forall|k: int|
                0 <= k < self.node_child_count(u) ==> #[trigger] self.node_child(u, k)
                    == prev.node_child(u, k)))
        &&& self.include_dir_view() == prev.include_dir_view()
        &&& self.options_view() == prev.options_view()
    }
}

impl Setting {
    /// Kind of the node; `TypeNone` for a stale handle.
    pub fn get_type(&self, cfg: &Config) -> (t: LibType)
        requires
            cfg.wf(),
        ensures
            cfg.valid(*self) ==> t == cfg.node_kind(*self),
            !cfg.valid(*self) ==> t == LibType::TypeNone,
    {
        if !cfg.is_valid(*self) {
            return LibType::TypeNone;
        }
        cfg.slots[self.idx].kind
    }

    /// Name of the node; `None` for the root, for array/list elements,
    /// and for a stale handle.
    pub fn get_name(&self, cfg: &Config) -> (r: Option<String>)
        requires
            cfg.wf(),
        ensures
            cfg.valid(*self) ==> match r {
                Some(n) => cfg.node_name(*self) == Some(n@),
                None => cfg.node_name(*self) is None,
            },
            !cfg.valid(*self) ==> r is None,
    {
        if !cfg.is_valid(*self) {
            return None;
        }
        match &cfg.slots[self.idx].name {
            Some(n) => Some(n.clone()),
            None => None,
        }
    }

    /// Position among the siblings; `None` for the root and for a
    /// stale handle.
    pub fn get_index(&self, cfg: &Config) -> (r: Option<usize>)
        requires
            cfg.wf(),
        ensures
            cfg.valid(*self) ==> r == cfg.node_pos(*self),
            !cfg.valid(*self) ==> r is None,
    {
        if !cfg.is_valid(*self) {
            return None;
        }
        cfg.slots[self.idx].pos
    }

    /// Whether this handle denotes the document root.
    pub fn is_root(&self, cfg: &Config) -> (r: bool)
        requires
            cfg.wf(),
        ensures
            r == (cfg.valid(*self) && *self == cfg.root_handle()),
    {
        cfg.is_valid(*self) && self.idx == 0
    }

    /// Handle to the parent node.  The root has no parent
    /// (`NotFound`); a stale handle reports `StaleReference`.
    pub fn get_parent(&self, cfg: &Config) -> (r: Result<Setting, LibconfigError>)
        requires
            cfg.wf(),
        ensures
            !cfg.valid(*self) ==> r == Err::<Setting, LibconfigError>(
                LibconfigError::StaleReference,
            ),
            cfg.valid(*self) && *self == cfg.root_handle() ==> r == Err::<
                Setting,
                LibconfigError,
            >(LibconfigError::NotFound),
            cfg.valid(*self) && *self != cfg.root_handle() ==> {
                &&& cfg.node_parent(*self) is Some
                &&& r == Ok::<Setting, LibconfigError>(cfg.node_parent(*self)->0)
                &&& cfg.valid(cfg.node_parent(*self)->0)
            },
    {
        if !cfg.is_valid(*self) {
            return Err(LibconfigError::StaleReference);
        }
        assert(slot_wf(cfg.slots@, self.idx as int));
        match cfg.slots[self.idx].parent {
            None => Err(LibconfigError::NotFound),
            Some(p) => Ok(Setting { idx: p }),
        }
    }

    /// Number of children; 0 for scalars.  A stale handle reports
    /// `StaleReference`; a child count beyond `i32` reports `Overflow`.
    pub fn get_length(&self, cfg: &Config) -> (r: Result<i32, LibconfigError>)
        requires
            cfg.wf(),
        ensures
            !cfg.valid(*self) ==> r == Err::<i32, LibconfigError>(LibconfigError::StaleReference),
            cfg.valid(*self) && cfg.node_child_count(*self) <= i32::MAX ==> r == Ok::<
                i32,
                LibconfigError,
            >(cfg.node_child_count(*self) as i32),
            cfg.valid(*self) && cfg.node_child_count(*self) > i32::MAX ==> r == Err::<
                i32,
                LibconfigError,
            >(LibconfigError::Overflow),
    {
        if !cfg.is_valid(*self) {
            return Err(LibconfigError::StaleReference);
        }
        let len = cfg.slots[self.idx].children.len();
        if len > i32::MAX as usize {
            return Err(LibconfigError::Overflow);
        }
        Ok(len as i32)
    }

    /// Whether the node is a group.
    pub fn is_group(&self, cfg: &Config) -> (r: bool)
        requires
            cfg.wf(),
        ensures
            r == (cfg.valid(*self) && cfg.node_kind(*self) == LibType::TypeGroup),
    {
        cfg.is_valid(*self) && matches!(cfg.slots[self.idx].kind, LibType::TypeGroup)
    }

    /// Whether the node is an array.
    pub fn is_array(&self, cfg: &Config) -> (r: bool)
        requires
            cfg.wf(),
        ensures
            r == (cfg.valid(*self) && cfg.node_kind(*self) == LibType::TypeArray),
    {
        cfg.is_valid(*self) && matches!(cfg.slots[self.idx].kind, LibType::TypeArray)
    }

    /// Whether the node is a list.
    pub fn is_list(&self, cfg: &Config) -> (r: bool)
        requires
            cfg.wf(),
        ensures
            r == (cfg.valid(*self) && cfg.node_kind(*self) == LibType::TypeList),
    {
        cfg.is_valid(*self) && matches!(cfg.slots[self.idx].kind, LibType::TypeList)
    }

    /// Whether the node is a group, array or list.
    pub fn is_aggregate(&self, cfg: &Config) -> (r: bool)
        requires
            cfg.wf(),
        ensures
            r == (cfg.valid(*self) && cfg.node_kind(*self).spec_is_aggregate()),
    {
        cfg.is_valid(*self) && cfg.slots[self.idx].kind.is_aggregate()
    }

    /// Whether the node holds a scalar value.
    pub fn is_scalar(&self, cfg: &Config) -> (r: bool)
        requires
            cfg.wf(),
        ensures
            r == (cfg.valid(*self) && cfg.node_kind(*self).spec_is_scalar()),
    {
        cfg.is_valid(*self) && cfg.slots[self.idx].kind.is_scalar()
    }

    /// Whether the node holds a numeric value.
    pub fn is_number(&self, cfg: &Config) -> (r: bool)
        requires
            cfg.wf(),
        ensures
            r == (cfg.valid(*self) && (cfg.node_kind(*self) == LibType::TypeInt || cfg.node_kind(
                *self,
            ) == LibType::TypeInt64 || cfg.node_kind(*self) == LibType::TypeFloat)),
    {
        cfg.is_valid(*self) && matches!(
            cfg.slots[self.idx].kind,
            LibType::TypeInt | LibType::TypeInt64 | LibType::TypeFloat
        )
    }

    /// Whether the node holds a string value.
    pub fn is_string(&self, cfg: &Config) -> (r: bool)
        requires
            cfg.wf(),
        ensures
            r == (cfg.valid(*self) && cfg.node_kind(*self) == LibType::TypeString),
    {
        cfg.is_valid(*self) && matches!(cfg.slots[self.idx].kind, LibType::TypeString)
    }

    /// Appends a new child of kind `t` at the end of this node's
    /// children.  Group children take a (unique, valid) name; array
    /// and list children are positional and take the empty name.  An
    /// array accepts only scalar elements of one uniform kind.  The
    /// new child starts with the default payload of its kind.
    pub fn add(&self, cfg: &mut Config, name: &str, t: LibType) -> (r: Result<
        Setting,
        LibconfigError,
    >)
        requires
            old(cfg).wf(),
        ensures
            final(cfg).wf(),
            !old(cfg).valid(*self) ==> r == Err::<Setting, LibconfigError>(
                LibconfigError::StaleReference,
            ) && *final(cfg) == *old(cfg),
            old(cfg).valid(*self) && !old(cfg).node_kind(*self).spec_is_aggregate() ==> r
                == Err::<Setting, LibconfigError>(LibconfigError::NotAggregate) && *final(cfg)
                == *old(cfg),
            old(cfg).valid(*self) && old(cfg).node_kind(*self).spec_is_aggregate() && !(
            t.spec_is_scalar() || t.spec_is_aggregate()) ==> r == Err::<Setting, LibconfigError>(
                LibconfigError::KindMismatch,
            ) && *final(cfg) == *old(cfg),
            old(cfg).valid(*self) && old(cfg).node_kind(*self) == LibType::TypeGroup && (
            t.spec_is_scalar() || t.spec_is_aggregate()) ==> {
                if !is_name(name@) {
                    r == Err::<Setting, LibconfigError>(LibconfigError::InvalidName) && *final(cfg) == *old(cfg)
                } else if old(cfg).has_named_child(*self, name@) {
                    r == Err::<Setting, LibconfigError>(LibconfigError::DuplicateName) && *final(cfg) == *old(cfg)
                } else {
                    r is Ok && final(cfg).add_result(
                        *old(cfg),
                        *self,
                        t,
                        Some(name@),
                        r->Ok_0,
                    )
                }
            },
            old(cfg).valid(*self) && (old(cfg).node_kind(*self) == LibType::TypeArray || old(cfg).node_kind(*self) == LibType::TypeList) && (t.spec_is_scalar()
                || t.spec_is_aggregate()) && name@.len() != 0 ==> r == Err::<
                Setting,
                LibconfigError,
            >(LibconfigError::InvalidName) && *final(cfg) == *old(cfg),
            old(cfg).valid(*self) && old(cfg).node_kind(*self) == LibType::TypeArray && (
            t.spec_is_scalar() || t.spec_is_aggregate()) && name@.len() == 0 ==> {
                if !t.spec_is_scalar() {
                    r == Err::<Setting, LibconfigError>(LibconfigError::KindMismatch) && *final(cfg) == *old(cfg)
                } else if old(cfg).node_child_count(*self) > 0 && old(cfg).node_kind(
                    old(cfg).node_child(*self, 0),
                ) != t {
                    r == Err::<Setting, LibconfigError>(LibconfigError::KindMismatch) && *final(cfg) == *old(cfg)
                } else {
                    r is Ok && final(cfg).add_result(*old(cfg), *self, t, None, r->Ok_0)
                }
            },
            old(cfg).valid(*self) && old(cfg).node_kind(*self) == LibType::TypeList && (
            t.spec_is_scalar() || t.spec_is_aggregate()) && name@.len() == 0 ==> r is Ok && final(cfg).add_result(*old(cfg), *self, t, None, r->Ok_0),
    {
        if !cfg.is_valid(*self) {
            return Err(LibconfigError::StaleReference);
        }
        proof {
            assert(slot_wf(cfg.slots@, self.idx as int));
        }
        let pk = cfg.slots[self.idx].kind;
        if !pk.is_aggregate() {
            return Err(LibconfigError::NotAggregate);
        }
        if !(t.is_scalar() || t.is_aggregate()) {
            return Err(LibconfigError::KindMismatch);
        }
        let name_chars = crate::text::str_to_chars(name);
        let count = cfg.slots[self.idx].children.len();
        let new_name: Option<String>;
        if matches!(pk, LibType::TypeGroup) {
            if !crate::text::check_name(&name_chars) {
                return Err(LibconfigError::InvalidName);
            }
            let name_owned = name.to_owned();
            let mut k: usize = 0;
            while k < count
                invariant
                    cfg.wf(),
                    *cfg == *old(cfg),
                    cfg.valid(*self),
                    (self.idx as int) < cfg.slots@.len(),
                    count == cfg.slots@[self.idx as int].children@.len(),
                    cfg.slots@[self.idx as int].kind == LibType::TypeGroup,
                    t.spec_is_scalar() || t.spec_is_aggregate(),
                    is_name(name@),
                    k <= count,
                    name_owned@ == name@,
                    forall|j: int|
                        0 <= j < k
                            ==> !((#[trigger] cfg.slots@[cfg.slots@[self.idx as int].children@[j]
                            as int].name) matches Some(x) && x@ == name@),
                decreases count - k,
            {
                proof {
                    assert(slot_wf(cfg.slots@, self.idx as int));
                    assert(child_wf(cfg.slots@, self.idx as int, k as int));
                }
                let c = cfg.slots[self.idx].children[k];
                match &cfg.slots[c].name {
                    Some(nm) => {
                        if *nm == name_owned {
                            proof {
                                assert((cfg.slots@[cfg.slots@[self.idx as int].children@[
                                k as int] as int].name) matches Some(x) && x@ == name@);
                                assert(cfg.has_named_child(*self, name@));
                            }
                            return Err(LibconfigError::DuplicateName);
                        }
                    },
                    None => {
                        proof {
                            assert(false);
                        }
                    },
                }
                k = k + 1;
            }
            proof {
                assert(!cfg.has_named_child(*self, name@));
            }
            new_name = Some(name_owned);
        } else {
            if name_chars.len() != 0 {
                return Err(LibconfigError::InvalidName);
            }
            new_name = None;
            if matches!(pk, LibType::TypeArray) {
                if !t.is_scalar() {
                    return Err(LibconfigError::KindMismatch);
                }
                if count > 0 {
                    proof {
                        assert(slot_wf(cfg.slots@, self.idx as int));
                        assert(child_wf(cfg.slots@, self.idx as int, 0));
                    }
                    let c0 = cfg.slots[self.idx].children[0];
                    if !(cfg.slots[c0].kind == t) {
                        return Err(LibconfigError::KindMismatch);
                    }
                }
            }
        }
        let n = cfg.slots.len();
        let ghost ss1 = cfg.slots@;
        let new_slot = Slot {
            live: true,
            kind: t,
            name: new_name,
            parent: Some(self.idx),
            pos: Some(count),
            children: Vec::new(),
            value: default_value(t),
            fmt: Format::FormatDefault,
            depth: Ghost(ss1[self.idx as int].depth@ + 1),
        };
        cfg.slots.push(new_slot);
        cfg.slots[self.idx].children.push(n);
        proof {
            vstd::std_specs::vec::axiom_spec_len(&cfg.slots);
            vstd::std_specs::vec::axiom_spec_len(&cfg.slots@[self.idx as int].children);
            assert(cfg.slots@[self.idx as int].children@ == ss1[self.idx as int].children@.push(
                n,
            ));
            lemma_wf_add(ss1, cfg.slots@, self.idx as int);
            assert forall|u: Setting| u != (Setting { idx: n }) implies #[trigger] cfg.valid(u)
                == old(cfg).valid(u) by {
                if (u.idx as int) < ss1.len() {
                    assert(attached_in(cfg.slots@, u.idx as int) == attached_in(
                        ss1,
                        u.idx as int,
                    ));
                } else {
                    assert(!((u.idx as int) < cfg.slots@.len()) || u.idx == n);
                }
            }
        }
        Ok(Setting { idx: n })
    }

    /// Resolves a dotted path from this node.  The empty path and `.`
    /// denote this node itself.  Any missing segment, kind mismatch
    /// or out-of-range position reports `NotFound`.
    pub fn lookup(&self, cfg: &Config, path: &str) -> (r: Result<Setting, LibconfigError>)
        requires
            cfg.wf(),
        ensures
            !cfg.valid(*self) ==> r == Err::<Setting, LibconfigError>(
                LibconfigError::StaleReference,
            ),
            cfg.valid(*self) ==> match cfg.resolve_spec(*self, path@) {
                Some(t) => r == Ok::<Setting, LibconfigError>(t) && cfg.valid(t),
                None => r == Err::<Setting, LibconfigError>(LibconfigError::NotFound),
            },
    {
        if !cfg.is_valid(*self) {
            return Err(LibconfigError::StaleReference);
        }
        let chars = crate::text::str_to_chars(path);
        if chars.len() == 0 {
            return Ok(*self);
        }
        if chars.len() == 1 && chars[0] == '.' {
            proof {
                assert(path@ =~= seq!['.']);
            }
            return Ok(*self);
        }
        proof {
            assert(path@.len() > 0);
            assert(path@ != seq!['.']) by {
                if path@ == seq!['.'] {
                    assert(path@.len() == 1 && path@[0] == '.');
                }
            }
            vstd::std_specs::vec::axiom_spec_len(&cfg.slots);
        }
        let ghost ss = cfg.slots@;
        let ghost segs_all = crate::path::split_from(path@, 0);
        let mut cur: usize = self.idx;
        let mut pos: usize = 0;
        loop
            invariant
                cfg.wf(),
                ss == cfg.slots@,
                ss.len() <= usize::MAX,
                chars@ == path@,
                pos <= chars@.len(),
                (cur as int) < ss.len(),
                attached_in(ss, cur as int),
                cfg.valid(*self),
                segs_all == crate::path::split_from(path@, 0),
                resolve_segs(ss, self.idx as int, segs_all) == resolve_segs(
                    ss,
                    cur as int,
                    crate::path::split_from(path@, pos as int),
                ),
                cfg.resolve_spec(*self, path@) == match resolve_segs(
                    ss,
                    self.idx as int,
                    segs_all,
                ) {
                    Some(j) => Some(Setting { idx: j as usize }),
                    None => None::<Setting>,
                },
            decreases chars@.len() - pos,
        {
            let end = crate::path::seg_end_at(&chars, pos);
            let ghost seg = path@.subrange(pos as int, end as int);
            let ghost rest: Seq<Seq<char>> = if (end as int) < path@.len() {
                crate::path::split_from(path@, end + 1)
            } else {
                Seq::empty()
            };
            proof {
                crate::path::lemma_seg_end_bounds(path@, pos as int);
                if (end as int) < path@.len() {
                    assert(crate::path::split_from(path@, pos as int) =~= seq![seg] + rest);
                    assert((seq![seg] + rest)[0] == seg);
                    assert((seq![seg] + rest).drop_first() =~= rest);
                } else {
                    assert(seg =~= path@.subrange(pos as int, path@.len() as int));
                    assert(crate::path::split_from(path@, pos as int) =~= seq![seg]);
                    assert(seq![seg].drop_first() =~= rest);
                }
                assert(resolve_segs(ss, cur as int, crate::path::split_from(path@, pos as int))
                    == match step_resolve(ss, cur as int, seg) {
                    None => None::<int>,
                    Some(j) => resolve_segs(ss, j, rest),
                });
                assert(slot_wf(ss, cur as int));
            }
            let de = crate::text::digits_end_at(&chars, pos);
            proof {
                crate::text::lemma_digits_end_bounds(path@, pos as int);
                // the digit run cannot pass the dot
                assert(de <= end) by {
                    if de > end {
                        assert(crate::text::is_digit(path@[end as int]));
                        assert(path@[end as int] == '.');
                    }
                }
                assert forall|t: int| 0 <= t < seg.len() implies seg[t] == path@[pos + t] by {}
                assert(crate::path::is_index_seg(seg) == (end > pos && de >= end)) by {
                    if end > pos && de >= end {
                        assert forall|t: int| 0 <= t < seg.len() implies crate::text::is_digit(
                            #[trigger] seg[t],
                        ) by {
                            assert(crate::text::is_digit(path@[pos + t]));
                        }
                    } else if crate::path::is_index_seg(seg) {
                        assert(end > pos);
                        if de < end {
                            assert(!crate::text::is_digit(path@[de as int]));
                            assert(seg[de - pos] == path@[de as int]);
                        }
                    }
                }
            }
            let is_idx = end > pos && de >= end;
            let nxt: usize;
            if is_idx {
                if !cfg.slots[cur].kind.is_aggregate() {
                    return Err(LibconfigError::NotFound);
                }
                let clen = cfg.slots[cur].children.len();
                match crate::num::dec_to_u64(&chars, pos, end) {
                    None => {
                        proof {
                            assert(crate::num::dec_val(seg) > u64::MAX);
                            assert(ss[cur as int].children@.len() <= usize::MAX);
                        }
                        return Err(LibconfigError::NotFound);
                    },
                    Some(k) => {
                        if k >= clen as u64 {
                            proof {
                                assert(crate::num::dec_val(seg) >= clen);
                            }
                            return Err(LibconfigError::NotFound);
                        }
                        proof {
                            assert(crate::num::dec_val(seg) == k);
                            assert(child_wf(ss, cur as int, k as int));
                            cfg.lemma_child_attached(cur as int, k as int);
                        }
                        nxt = cfg.slots[cur].children[k as usize];
                    },
                }
            } else {
                if !matches!(cfg.slots[cur].kind, LibType::TypeGroup) {
                    return Err(LibconfigError::NotFound);
                }
                let seg_str = crate::text::chars_to_string(
                    &crate::path::subvec(&chars, pos, end),
                );
                let clen = cfg.slots[cur].children.len();
                let mut k: usize = 0;
                let mut found: Option<usize> = None;
                while found.is_none() && k < clen
                    invariant
                        cfg.wf(),
                        ss == cfg.slots@,
                        (cur as int) < ss.len(),
                        ss[cur as int].kind == LibType::TypeGroup,
                        ss[cur as int].live,
                        clen == ss[cur as int].children@.len(),
                        k <= clen,
                        seg_str@ == seg,
                        match found {
                            None => forall|m: int|
                                0 <= m < k
                                    ==> !((#[trigger] ss[ss[cur as int].children@[m]
                                    as int].name) matches Some(x) && x@ == seg),
                            Some(kf) => (kf as int) < clen && ((ss[ss[cur as int].children@[
                            kf as int] as int].name) matches Some(x) && x@ == seg),
                        },
                    decreases clen - k, (if found is None { 1int } else { 0int }),
                {
                    proof {
                        assert(slot_wf(ss, cur as int));
                        assert(child_wf(ss, cur as int, k as int));
                    }
                    let c = cfg.slots[cur].children[k];
                    let matched = match &cfg.slots[c].name {
                        Some(nm) => *nm == seg_str,
                        None => false,
                    };
                    if matched {
                        found = Some(k);
                    } else {
                        k = k + 1;
                    }
                }
                match found {
                    None => {
                        proof {
                            assert(!has_named(ss, cur as int, seg));
                        }
                        return Err(LibconfigError::NotFound);
                    },
                    Some(kf) => {
                        proof {
                            assert((ss[ss[cur as int].children@[kf as int] as int].name) matches
                                Some(x) && x@ == seg);
                            assert(has_named(ss, cur as int, seg));
                            let kc = named_pos(ss, cur as int, seg);
                            assert((ss[ss[cur as int].children@[kc] as int].name) matches Some(
                                x,
                            ) && x@ == seg);
                            assert(slot_wf(ss, cur as int));
                            assert(kc == kf as int) by {
                                if kc != kf as int {
                                    assert(ss[ss[cur as int].children@[kc] as int].name->0@
                                        != ss[ss[cur as int].children@[kf as int]
                                        as int].name->0@);
                                }
                            }
                            assert(child_wf(ss, cur as int, kf as int));
                            cfg.lemma_child_attached(cur as int, kf as int);
                        }
                        nxt = cfg.slots[cur].children[kf];
                    },
                }
            }
            if end >= chars.len() {
                proof {
                    assert(resolve_segs(ss, nxt as int, rest) == Some(nxt as int));
                    assert(cfg.resolve_spec(*self, path@) == Some(Setting { idx: nxt }));
                }
                return Ok(Setting { idx: nxt });
            }
            cur = nxt;
            pos = end + 1;
        }
    }

    /// Whether a path resolves from this node.  A stale handle has no
    /// reachable nodes at all.
    pub fn path_exists(&self, cfg: &Config, path: &str) -> (r: bool)
        requires
            cfg.wf(),
        ensures
            r == (cfg.valid(*self) && cfg.resolve_spec(*self, path@) is Some),
    {
        match self.lookup(cfg, path) {
            Ok(_) => true,
            Err(_) => false,
        }
    }

    /// Best-effort boolean read at a path: `None` on a missing path
    /// or a non-boolean node, never an error.
    pub fn lookup_bool(&self, cfg: &Config, path: &str) -> (r: Option<bool>)
        requires
            cfg.wf(),
        ensures
            !cfg.valid(*self) ==> r is None,
            cfg.valid(*self) ==> match cfg.resolve_spec(*self, path@) {
                Some(t) => match r {
                    Some(b) => cfg.node_value(t) is Some && read_bool_v(cfg.node_value(t)->0)
                        == Some(b),
                    None => !(cfg.node_value(t) is Some && read_bool_v(
                        cfg.node_value(t)->0,
                    ) is Some),
                },
                None => r is None,
            },
    {
        match self.lookup(cfg, path) {
            Ok(t) => match t.try_bool(cfg) {
                Ok(b) => Some(b),
                Err(_) => {
                    proof {
                        assert(slot_wf(cfg.slots@, t.idx as int));
                    }
                    None
                },
            },
            Err(_) => None,
        }
    }

    /// Best-effort 32-bit integer read at a path: `None` on a missing
    /// path, a non-integer node, or a 64-bit value beyond 32-bit
    /// range; never an error.
    pub fn lookup_i32(&self, cfg: &Config, path: &str) -> (r: Option<i32>)
        requires
            cfg.wf(),
        ensures
            !cfg.valid(*self) ==> r is None,
            cfg.valid(*self) ==> match cfg.resolve_spec(*self, path@) {
                Some(t) => match r {
                    Some(x) => cfg.node_value(t) is Some && read_i32_v(cfg.node_value(t)->0)
                        == Some(x as int),
                    None => !(cfg.node_value(t) is Some && read_i32_v(
                        cfg.node_value(t)->0,
                    ) is Some),
                },
                None => r is None,
            },
    {
        match self.lookup(cfg, path) {
            Ok(t) => match t.try_i32(cfg) {
                Ok(x) => Some(x),
                Err(_) => {
                    proof {
                        assert(slot_wf(cfg.slots@, t.idx as int));
                    }
                    None
                },
            },
            Err(_) => None,
        }
    }

    /// Best-effort 64-bit integer read at a path, widening 32-bit
    /// values: `None` on a missing path or a non-integer node.
    pub fn lookup_i64(&self, cfg: &Config, path: &str) -> (r: Option<i64>)
        requires
            cfg.wf(),
        ensures
            !cfg.valid(*self) ==> r is None,
            cfg.valid(*self) ==> match cfg.resolve_spec(*self, path@) {
                Some(t) => match r {
                    Some(x) => cfg.node_value(t) is Some && read_i64_v(cfg.node_value(t)->0)
                        == Some(x as int),
                    None => !(cfg.node_value(t) is Some && read_i64_v(
                        cfg.node_value(t)->0,
                    ) is Some),
                },
                None => r is None,
            },
    {
        match self.lookup(cfg, path) {
            Ok(t) => match t.try_i64(cfg) {
                Ok(x) => Some(x),
                Err(_) => {
                    proof {
                        assert(slot_wf(cfg.slots@, t.idx as int));
                    }
                    None
                },
            },
            Err(_) => None,
        }
    }

    /// Best-effort string read at a path: the text is copied; `None`
    /// on a missing path or a non-string node.
    pub fn lookup_string(&self, cfg: &Config, path: &str) -> (r: Option<String>)
        requires
            cfg.wf(),
        ensures
            !cfg.valid(*self) ==> r is None,
            cfg.valid(*self) ==> match cfg.resolve_spec(*self, path@) {
                Some(t) => match r {
                    Some(s) => cfg.node_value(t) is Some && read_str_v(cfg.node_value(t)->0)
                        == Some(s@),
                    None => !(cfg.node_value(t) is Some && read_str_v(
                        cfg.node_value(t)->0,
                    ) is Some),
                },
                None => r is None,
            },
    {
        match self.lookup(cfg, path) {
            Ok(t) => match t.try_string(cfg) {
                Ok(s) => Some(s),
                Err(_) => {
                    proof {
                        assert(slot_wf(cfg.slots@, t.idx as int));
                    }
                    None
                },
            },
            Err(_) => None,
        }
    }

    /// Best-effort float read at a path, as the stored literal text:
    /// `None` on a missing path or a non-float node.
    pub fn lookup_float_text(&self, cfg: &Config, path: &str) -> (r: Option<String>)
        requires
            cfg.wf(),
        ensures
            !cfg.valid(*self) ==> r is None,
            cfg.valid(*self) ==> match cfg.resolve_spec(*self, path@) {
                Some(t) => match r {
                    Some(s) => cfg.node_value(t) is Some && read_float_v(cfg.node_value(t)->0)
                        == Some(s@),
                    None => !(cfg.node_value(t) is Some && read_float_v(
                        cfg.node_value(t)->0,
                    ) is Some),
                },
                None => r is None,
            },
    {
        match self.lookup(cfg, path) {
            Ok(t) => match t.try_float_text(cfg) {
                Ok(s) => Some(s),
                Err(_) => {
                    proof {
                        assert(slot_wf(cfg.slots@, t.idx as int));
                    }
                    None
                },
            },
            Err(_) => None,
        }
    }

    /// The full dotted path from the document root to this node,
    /// rendered by walking the parent links; the root's path is the
    /// empty string, as is a stale handle's.
    pub fn get_path(&self, cfg: &Config) -> (r: String)
        requires
            cfg.wf(),
        ensures
            cfg.valid(*self) ==> r@ == cfg.node_path(*self),
            !cfg.valid(*self) ==> r@ == Seq::<char>::empty(),
    {
        if !cfg.is_valid(*self) {
            return String::new();
        }
        let v = path_chars(cfg, self.idx);
        crate::text::chars_to_string(&v)
    }

    /// Removes the child at position `idx`.  The removed subtree's
    /// handles become stale; the later siblings' positions move down
    /// by one, keeping positions contiguous.
    pub fn remove_idx(&self, cfg: &mut Config, idx: usize) -> (r: Result<(), LibconfigError>)
        requires
            old(cfg).wf(),
        ensures
            final(cfg).wf(),
            !old(cfg).valid(*self) ==> r == Err::<(), LibconfigError>(
                LibconfigError::StaleReference,
            ) && *final(cfg) == *old(cfg),
            old(cfg).valid(*self) && !old(cfg).node_kind(*self).spec_is_aggregate() ==> r
                == Err::<(), LibconfigError>(LibconfigError::NotAggregate) && *final(cfg) == *old(cfg),
            old(cfg).valid(*self) && old(cfg).node_kind(*self).spec_is_aggregate() && idx >= old(cfg).node_child_count(*self) ==> r == Err::<(), LibconfigError>(LibconfigError::NotFound)
                && *final(cfg) == *old(cfg),
            old(cfg).valid(*self) && old(cfg).node_kind(*self).spec_is_aggregate() && idx < old(cfg).node_child_count(*self) ==> r == Ok::<(), LibconfigError>(()) && final(cfg).remove_result(*old(cfg), *self, idx as int),
    {
        if !cfg.is_valid(*self) {
            return Err(LibconfigError::StaleReference);
        }
        proof {
            assert(slot_wf(cfg.slots@, self.idx as int));
        }
        if !cfg.slots[self.idx].kind.is_aggregate() {
            return Err(LibconfigError::NotAggregate);
        }
        let count = cfg.slots[self.idx].children.len();
        if idx >= count {
            return Err(LibconfigError::NotFound);
        }
        proof {
            assert(child_wf(cfg.slots@, self.idx as int, idx as int));
            vstd::std_specs::vec::axiom_spec_len(&cfg.slots);
        }
        let ghost ss_init = cfg.slots@;
        let c = cfg.slots[self.idx].children[idx];
        cfg.slots[c].live = false;
        cfg.slots[self.idx].children.remove(idx);
        let ghost ch2 = cfg.slots@[self.idx as int].children@;
        let new_count = cfg.slots[self.idx].children.len();
        let mut j: usize = idx;
        while j < new_count
            invariant
                slots_wf(ss_init),
                (self.idx as int) < ss_init.len(),
                ss_init[self.idx as int].live,
                ss_init[self.idx as int].kind.spec_is_aggregate(),
                (idx as int) < ss_init[self.idx as int].children@.len(),
                count == ss_init[self.idx as int].children@.len(),
                c == ss_init[self.idx as int].children@[idx as int],
                ss_init.len() <= usize::MAX,
                cfg.slots@.len() == ss_init.len(),
                ch2 == ss_init[self.idx as int].children@.remove(idx as int),
                new_count == ch2.len(),
                idx <= j <= new_count,
                // the removed child is dead, otherwise untouched
                !cfg.slots@[c as int].live,
                cfg.slots@[c as int].kind == ss_init[c as int].kind && cfg.slots@[c as int].name
                    == ss_init[c as int].name && cfg.slots@[c as int].parent == ss_init[
                c as int].parent && cfg.slots@[c as int].pos == ss_init[c as int].pos
                    && cfg.slots@[c as int].children == ss_init[c as int].children
                    && cfg.slots@[c as int].value == ss_init[c as int].value && cfg.slots@[
                c as int].fmt == ss_init[c as int].fmt && cfg.slots@[c as int].depth == ss_init[
                c as int].depth,
                // the parent lost exactly that child
                cfg.slots@[self.idx as int].children@ == ch2,
                cfg.slots@[self.idx as int].live == ss_init[self.idx as int].live && cfg.slots@[
                self.idx as int].kind == ss_init[self.idx as int].kind && cfg.slots@[self.idx
                    as int].name == ss_init[self.idx as int].name && cfg.slots@[self.idx
                    as int].parent == ss_init[self.idx as int].parent && cfg.slots@[self.idx
                    as int].pos == ss_init[self.idx as int].pos && cfg.slots@[self.idx
                    as int].value == ss_init[self.idx as int].value && cfg.slots@[self.idx
                    as int].fmt == ss_init[self.idx as int].fmt && cfg.slots@[self.idx
                    as int].depth == ss_init[self.idx as int].depth,
                // siblings repositioned so far
                forall|m: int|
                    idx <= m < j ==> eq_except_pos(
                        #[trigger] cfg.slots@[ch2[m] as int],
                        ss_init[ch2[m] as int],
                    ) && cfg.slots@[ch2[m] as int].pos == Some(m as usize),
                // nothing else changed
                forall|i: int|
                    0 <= i < ss_init.len() && i != c as int && i != self.idx as int && !(
                    exists|m: int| idx <= m < j && ch2[m] == i) ==> #[trigger] cfg.slots@[i]
                        == ss_init[i],
                cfg.include_dir == old(cfg).include_dir,
                cfg.options == old(cfg).options,
            decreases new_count - j,
        {
            proof {
                assert(slot_wf(ss_init, self.idx as int));
                assert(child_wf(ss_init, self.idx as int, idx as int));
                assert(child_wf(ss_init, self.idx as int, j + 1));
                assert(ch2[j as int] == ss_init[self.idx as int].children@[j + 1]);
                // the sibling slot has not been touched yet
                assert forall|m1: int, m2: int|
                    0 <= m1 < count && 0 <= m2 < count && m1 != m2 implies ss_init[self.idx
                    as int].children@[m1] != ss_init[self.idx as int].children@[m2] by {
                    assert(child_wf(ss_init, self.idx as int, m1));
                    assert(child_wf(ss_init, self.idx as int, m2));
                }
                assert(ch2[j as int] as int != c as int);
                assert(ch2[j as int] as int != self.idx as int) by {
                    assert(child_wf(ss_init, self.idx as int, j + 1));
                }
                assert forall|m: int| idx <= m < j implies ch2[m] != ch2[j as int] by {
                    assert(ch2[m] == ss_init[self.idx as int].children@[m + 1]);
                }
                assert(cfg.slots@[ch2[j as int] as int] == ss_init[ch2[j as int] as int]);
            }
            let sib = cfg.slots[self.idx].children[j];
            let ghost pre = cfg.slots@;
            cfg.slots[sib].pos = Some(j);
            proof {
                assert(sib == ch2[j as int]);
                assert(cfg.slots@[sib as int].pos == Some(j));
                assert(eq_except_pos(cfg.slots@[sib as int], pre[sib as int]));
                assert(forall|x: int|
                    0 <= x < pre.len() && x != sib as int ==> #[trigger] cfg.slots@[x] == pre[x]);
                assert(c as int != sib as int);
                assert(cfg.slots@[c as int] == pre[c as int]);
                assert(!cfg.slots@[c as int].live);
                assert forall|m: int| idx <= m <= j implies eq_except_pos(
                    #[trigger] cfg.slots@[ch2[m] as int],
                    ss_init[ch2[m] as int],
                ) && cfg.slots@[ch2[m] as int].pos == Some(m as usize) by {
                    if m < j {
                        assert(child_wf(ss_init, self.idx as int, m + 1));
                        assert(ch2[m] == ss_init[self.idx as int].children@[m + 1]);
                        assert(ch2[m] != ch2[j as int]);
                        assert(cfg.slots@[ch2[m] as int] == pre[ch2[m] as int]);
                        assert(eq_except_pos(pre[ch2[m] as int], ss_init[ch2[m] as int]));
                        assert(pre[ch2[m] as int].pos == Some(m as usize));
                    } else {
                        assert(pre[sib as int] == ss_init[sib as int]);
                    }
                }
            }
            j = j + 1;
        }
        proof {
            lemma_wf_remove(ss_init, cfg.slots@, self.idx as int, idx as int);
            let ss2 = cfg.slots@;
            assert forall|i: int| 0 <= i < ss_init.len() implies attached_in(ss2, i) == (
            attached_in(ss_init, i) && !ancestor_in(ss_init, i, c as int)) by {
                lemma_attached_after_kill(ss_init, ss2, c as int, i);
            }
            // validity of every handle maps across the removal
            assert forall|u: Setting| #[trigger]
                cfg.valid(u) == (old(cfg).valid(u) && !old(cfg).descends_from(
                    u,
                    Setting { idx: c },
                )) by {
                if (u.idx as int) >= ss_init.len() {
                    assert(!cfg.valid(u));
                    assert(!old(cfg).valid(u));
                }
            }
            // positions of surviving nodes
            assert forall|u: Setting| cfg.valid(u) implies #[trigger] cfg.node_pos(u) == (if old(cfg).node_parent(u) == Some(*self) && (idx as int) < old(cfg).node_pos(u)->0 {
                Some((old(cfg).node_pos(u)->0 - 1) as usize)
            } else {
                old(cfg).node_pos(u)
            }) by {
                let ui = u.idx as int;
                assert(slot_wf(ss_init, ui));
                if ss_init[ui].parent == Some(self.idx) {
                    // u is one of the parent's children
                    assert(ss_init[self.idx as int].live);
                    let m0 = ss_init[ui].pos->0 as int;
                    assert(ss_init[self.idx as int].children@[m0] == u.idx);
                    assert(ui != c as int);
                    assert(m0 != idx) by {
                        assert forall|m1: int, m2: int|
                            0 <= m1 < count && 0 <= m2 < count && m1 != m2 implies ss_init[
                        self.idx as int].children@[m1] != ss_init[self.idx
                            as int].children@[m2] by {
                            assert(child_wf(ss_init, self.idx as int, m1));
                            assert(child_wf(ss_init, self.idx as int, m2));
                        }
                    }
                    if m0 < idx as int {
                        assert(ch2[m0] == ss_init[self.idx as int].children@[m0]);
                        assert forall|mm: int| idx <= mm < ch2.len() implies ch2[mm]
                            != u.idx by {
                            assert(ch2[mm] == ss_init[self.idx as int].children@[mm + 1]);
                            assert(child_wf(ss_init, self.idx as int, mm + 1));
                            assert(child_wf(ss_init, self.idx as int, m0));
                        }
                        assert(cfg.slots@[ui] == ss_init[ui]);
                    } else {
                        assert(ch2[m0 - 1] == ss_init[self.idx as int].children@[m0]);
                        assert(cfg.slots@[ui].pos == Some((m0 - 1) as usize));
                    }
                } else {
                    assert(ui != c as int);
                    if ui != self.idx as int {
                        assert forall|mm: int| idx <= mm < ch2.len() implies ch2[mm]
                            != u.idx by {
                            assert(ch2[mm] == ss_init[self.idx as int].children@[mm + 1]);
                            assert(child_wf(ss_init, self.idx as int, mm + 1));
                        }
                        assert(cfg.slots@[ui] == ss_init[ui]);
                    }
                    assert(old(cfg).node_parent(u) != Some(*self));
                }
            }
        }
        Ok(())
    }

    /// Removes the named child of a group.  The removed subtree's
    /// handles become stale; the later siblings' positions move down
    /// by one.
    pub fn remove(&self, cfg: &mut Config, name: &str) -> (r: Result<(), LibconfigError>)
        requires
            old(cfg).wf(),
        ensures
            final(cfg).wf(),
            !old(cfg).valid(*self) ==> r == Err::<(), LibconfigError>(
                LibconfigError::StaleReference,
            ) && *final(cfg) == *old(cfg),
            old(cfg).valid(*self) && !old(cfg).node_kind(*self).spec_is_aggregate() ==> r
                == Err::<(), LibconfigError>(LibconfigError::NotAggregate) && *final(cfg) == *old(cfg),
            old(cfg).valid(*self) && old(cfg).node_kind(*self).spec_is_aggregate() && !old(cfg).has_named_child(*self, name@) ==> r == Err::<(), LibconfigError>(
                LibconfigError::NotFound,
            ) && *final(cfg) == *old(cfg),
            old(cfg).valid(*self) && old(cfg).node_kind(*self).spec_is_aggregate() && old(cfg).has_named_child(*self, name@) ==> r == Ok::<(), LibconfigError>(()) && (exists|
                k: int,
            |
                0 <= k < old(cfg).node_child_count(*self) && old(cfg).node_name(
                    #[trigger] old(cfg).node_child(*self, k),
                ) == Some(name@) && final(cfg).remove_result(*old(cfg), *self, k)),
    {
        if !cfg.is_valid(*self) {
            return Err(LibconfigError::StaleReference);
        }
        proof {
            assert(slot_wf(cfg.slots@, self.idx as int));
        }
        if !cfg.slots[self.idx].kind.is_aggregate() {
            return Err(LibconfigError::NotAggregate);
        }
        let name_owned = name.to_owned();
        let count = cfg.slots[self.idx].children.len();
        let mut k: usize = 0;
        while k < count
            invariant
                cfg.wf(),
                *cfg == *old(cfg),
                cfg.valid(*self),
                (self.idx as int) < cfg.slots@.len(),
                count == cfg.slots@[self.idx as int].children@.len(),
                cfg.slots@[self.idx as int].kind.spec_is_aggregate(),
                cfg.slots@[self.idx as int].live,
                k <= count,
                name_owned@ == name@,
                forall|j: int|
                    0 <= j < k
                        ==> !((#[trigger] cfg.slots@[cfg.slots@[self.idx as int].children@[j]
                        as int].name) matches Some(x) && x@ == name@),
            decreases count - k,
        {
            proof {
                assert(slot_wf(cfg.slots@, self.idx as int));
                assert(child_wf(cfg.slots@, self.idx as int, k as int));
            }
            let c = cfg.slots[self.idx].children[k];
            let matched = match &cfg.slots[c].name {
                Some(nm) => *nm == name_owned,
                None => false,
            };
            if matched {
                proof {
                    assert((cfg.slots@[cfg.slots@[self.idx as int].children@[k as int] as int].name)
                        matches Some(x) && x@ == name@);
                    assert(cfg.has_named_child(*self, name@));
                    assert(old(cfg).node_name(old(cfg).node_child(*self, k as int)) == Some(
                        name@,
                    ));
                }
                return self.remove_idx(cfg, k);
            }
            k = k + 1;
        }
        proof {
            assert(!cfg.has_named_child(*self, name@));
        }
        Err(LibconfigError::NotFound)
    }

    /// Replaces the stored boolean.  The node's kind is fixed at
    /// creation: a value of any other kind is refused, never coerced.
    pub fn set_bool(&self, cfg: &mut Config, val: bool) -> (r: Result<(), LibconfigError>)
        requires
            old(cfg).wf(),
        ensures
            final(cfg).wf(),
            !old(cfg).valid(*self) ==> r == Err::<(), LibconfigError>(
                LibconfigError::StaleReference,
            ) && *final(cfg) == *old(cfg),
            old(cfg).valid(*self) && old(cfg).node_kind(*self) != LibType::TypeBoolean ==> r
                == Err::<(), LibconfigError>(LibconfigError::KindMismatch) && *final(cfg) == *old(cfg),
            old(cfg).valid(*self) && old(cfg).node_kind(*self) == LibType::TypeBoolean ==> {
                &&& r == Ok::<(), LibconfigError>(())
                &&& final(cfg).same_except_payload(*old(cfg), *self)
                &&& final(cfg).node_value(*self) == Some(ValueV::BoolV(val))
                &&& final(cfg).node_fmt(*self) == old(cfg).node_fmt(*self)
                &&& forall|t: Setting| final(cfg).valid(t) == old(cfg).valid(t)
            },
    {
        if !cfg.is_valid(*self) {
            return Err(LibconfigError::StaleReference);
        }
        if !matches!(cfg.slots[self.idx].kind, LibType::TypeBoolean) {
            return Err(LibconfigError::KindMismatch);
        }
        let ghost ss1 = cfg.slots@;
        cfg.slots[self.idx].value = Some(Value::BoolVal(val));
        proof {
            assert(slot_wf(ss1, self.idx as int));
            lemma_wf_payload_update(ss1, cfg.slots@, self.idx as int);
        }
        Ok(())
    }

    /// Replaces the stored 32-bit integer.  The node's kind is fixed
    /// at creation: a value of any other kind is refused, never
    /// coerced.
    pub fn set_i32(&self, cfg: &mut Config, val: i32) -> (r: Result<(), LibconfigError>)
        requires
            old(cfg).wf(),
        ensures
            final(cfg).wf(),
            !old(cfg).valid(*self) ==> r == Err::<(), LibconfigError>(
                LibconfigError::StaleReference,
            ) && *final(cfg) == *old(cfg),
            old(cfg).valid(*self) && old(cfg).node_kind(*self) != LibType::TypeInt ==> r == Err::<
                (),
                LibconfigError,
            >(LibconfigError::KindMismatch) && *final(cfg) == *old(cfg),
            old(cfg).valid(*self) && old(cfg).node_kind(*self) == LibType::TypeInt ==> {
                &&& r == Ok::<(), LibconfigError>(())
                &&& final(cfg).same_except_payload(*old(cfg), *self)
                &&& final(cfg).node_value(*self) == Some(ValueV::IntV(val as int))
                &&& final(cfg).node_fmt(*self) == old(cfg).node_fmt(*self)
                &&& forall|t: Setting| final(cfg).valid(t) == old(cfg).valid(t)
            },
    {
        if !cfg.is_valid(*self) {
            return Err(LibconfigError::StaleReference);
        }
        if !matches!(cfg.slots[self.idx].kind, LibType::TypeInt) {
            return Err(LibconfigError::KindMismatch);
        }
        let ghost ss1 = cfg.slots@;
        cfg.slots[self.idx].value = Some(Value::IntVal(val));
        proof {
            lemma_wf_payload_update(ss1, cfg.slots@, self.idx as int);
        }
        Ok(())
    }

    /// Replaces the stored 64-bit integer.  The node's kind is fixed
    /// at creation: a value of any other kind is refused, never
    /// coerced.
    pub fn set_i64(&self, cfg: &mut Config, val: i64) -> (r: Result<(), LibconfigError>)
        requires
            old(cfg).wf(),
        ensures
            final(cfg).wf(),
            !old(cfg).valid(*self) ==> r == Err::<(), LibconfigError>(
                LibconfigError::StaleReference,
            ) && *final(cfg) == *old(cfg),
            old(cfg).valid(*self) && old(cfg).node_kind(*self) != LibType::TypeInt64 ==> r
                == Err::<(), LibconfigError>(LibconfigError::KindMismatch) && *final(cfg) == *old(cfg),
            old(cfg).valid(*self) && old(cfg).node_kind(*self) == LibType::TypeInt64 ==> {
                &&& r == Ok::<(), LibconfigError>(())
                &&& final(cfg).same_except_payload(*old(cfg), *self)
                &&& final(cfg).node_value(*self) == Some(ValueV::Int64V(val as int))
                &&& final(cfg).node_fmt(*self) == old(cfg).node_fmt(*self)
                &&& forall|t: Setting| final(cfg).valid(t) == old(cfg).valid(t)
            },
    {
        if !cfg.is_valid(*self) {
            return Err(LibconfigError::StaleReference);
        }
        if !matches!(cfg.slots[self.idx].kind, LibType::TypeInt64) {
            return Err(LibconfigError::KindMismatch);
        }
        let ghost ss1 = cfg.slots@;
        cfg.slots[self.idx].value = Some(Value::Int64Val(val));
        proof {
            lemma_wf_payload_update(ss1, cfg.slots@, self.idx as int);
        }
        Ok(())
    }

    /// Replaces the stored string.  The node's kind is fixed at
    /// creation: a value of any other kind is refused, never coerced.
    pub fn set_str(&self, cfg: &mut Config, val: &str) -> (r: Result<(), LibconfigError>)
        requires
            old(cfg).wf(),
        ensures
            final(cfg).wf(),
            !old(cfg).valid(*self) ==> r == Err::<(), LibconfigError>(
                LibconfigError::StaleReference,
            ) && *final(cfg) == *old(cfg),
            old(cfg).valid(*self) && old(cfg).node_kind(*self) != LibType::TypeString ==> r
                == Err::<(), LibconfigError>(LibconfigError::KindMismatch) && *final(cfg) == *old(cfg),
            old(cfg).valid(*self) && old(cfg).node_kind(*self) == LibType::TypeString ==> {
                &&& r == Ok::<(), LibconfigError>(())
                &&& final(cfg).same_except_payload(*old(cfg), *self)
                &&& final(cfg).node_value(*self) == Some(ValueV::StrV(val@))
                &&& final(cfg).node_fmt(*self) == old(cfg).node_fmt(*self)
                &&& forall|t: Setting| final(cfg).valid(t) == old(cfg).valid(t)
            },
    {
        if !cfg.is_valid(*self) {
            return Err(LibconfigError::StaleReference);
        }
        if !matches!(cfg.slots[self.idx].kind, LibType::TypeString) {
            return Err(LibconfigError::KindMismatch);
        }
        let ghost ss1 = cfg.slots@;
        cfg.slots[self.idx].value = Some(Value::StrVal(val.to_owned()));
        proof {
            assert(slot_wf(ss1, self.idx as int));
            lemma_wf_payload_update(ss1, cfg.slots@, self.idx as int);
        }
        Ok(())
    }

    /// Replaces the stored float, given as its literal text (for
    /// example `0.5` or `1e10`).  Text that is not a float literal of
    /// the grammar is refused with `KindMismatch`, as is a node of any
    /// other kind.
    pub fn set_float_text(&self, cfg: &mut Config, val: &str) -> (r: Result<(), LibconfigError>)
        requires
            old(cfg).wf(),
        ensures
            final(cfg).wf(),
            !old(cfg).valid(*self) ==> r == Err::<(), LibconfigError>(
                LibconfigError::StaleReference,
            ) && *final(cfg) == *old(cfg),
            old(cfg).valid(*self) && (old(cfg).node_kind(*self) != LibType::TypeFloat
                || !is_float_lit(val@)) ==> r == Err::<(), LibconfigError>(
                LibconfigError::KindMismatch,
            ) && *final(cfg) == *old(cfg),
            old(cfg).valid(*self) && old(cfg).node_kind(*self) == LibType::TypeFloat
                && is_float_lit(val@) ==> {
                &&& r == Ok::<(), LibconfigError>(())
                &&& final(cfg).same_except_payload(*old(cfg), *self)
                &&& final(cfg).node_value(*self) == Some(ValueV::FloatV(val@))
                &&& final(cfg).node_fmt(*self) == old(cfg).node_fmt(*self)
                &&& forall|t: Setting| final(cfg).valid(t) == old(cfg).valid(t)
            },
    {
        if !cfg.is_valid(*self) {
            return Err(LibconfigError::StaleReference);
        }
        if !matches!(cfg.slots[self.idx].kind, LibType::TypeFloat) {
            return Err(LibconfigError::KindMismatch);
        }
        let chars = crate::text::str_to_chars(val);
        if !crate::text::check_float_lit(&chars) {
            return Err(LibconfigError::KindMismatch);
        }
        let ghost ss1 = cfg.slots@;
        cfg.slots[self.idx].value = Some(Value::FloatVal(val.to_owned()));
        proof {
            assert(slot_wf(ss1, self.idx as int));
            lemma_wf_payload_update(ss1, cfg.slots@, self.idx as int);
        }
        Ok(())
    }

    /// Replaces the display hint of an integer node.  A pure display
    /// property: the stored value is untouched.  Meaningless for other
    /// kinds (`NotApplicable`).
    pub fn set_format(&self, cfg: &mut Config, fmt: Format) -> (r: Result<(), LibconfigError>)
        requires
            old(cfg).wf(),
        ensures
            final(cfg).wf(),
            !old(cfg).valid(*self) ==> r == Err::<(), LibconfigError>(
                LibconfigError::StaleReference,
            ) && *final(cfg) == *old(cfg),
            old(cfg).valid(*self) && !(old(cfg).node_kind(*self) == LibType::TypeInt || old(cfg).node_kind(*self) == LibType::TypeInt64) ==> r == Err::<(), LibconfigError>(
                LibconfigError::NotApplicable,
            ) && *final(cfg) == *old(cfg),
            old(cfg).valid(*self) && (old(cfg).node_kind(*self) == LibType::TypeInt || old(cfg).node_kind(*self) == LibType::TypeInt64) ==> {
                &&& r == Ok::<(), LibconfigError>(())
                &&& final(cfg).same_except_payload(*old(cfg), *self)
                &&& final(cfg).node_fmt(*self) == fmt
                &&& final(cfg).node_value(*self) == old(cfg).node_value(*self)
                &&& forall|t: Setting| final(cfg).valid(t) == old(cfg).valid(t)
            },
    {
        if !cfg.is_valid(*self) {
            return Err(LibconfigError::StaleReference);
        }
        if !matches!(cfg.slots[self.idx].kind, LibType::TypeInt | LibType::TypeInt64) {
            return Err(LibconfigError::NotApplicable);
        }
        let ghost ss1 = cfg.slots@;
        cfg.slots[self.idx].fmt = fmt;
        proof {
            assert(slot_wf(ss1, self.idx as int));
            lemma_wf_payload_update(ss1, cfg.slots@, self.idx as int);
        }
        Ok(())
    }

    /// Strict boolean extraction from an already-resolved node.
    pub fn try_bool(&self, cfg: &Config) -> (r: Result<bool, LibconfigError>)
        requires
            cfg.wf(),
        ensures
            !cfg.valid(*self) ==> r == Err::<bool, LibconfigError>(LibconfigError::StaleReference),
            cfg.valid(*self) ==> match r {
                Ok(b) => cfg.node_value(*self) is Some && read_bool_v(cfg.node_value(*self)->0)
                    == Some(b),
                Err(e) => e == LibconfigError::TypeMismatch && cfg.node_kind(*self)
                    != LibType::TypeBoolean,
            },
            cfg.valid(*self) && cfg.node_kind(*self) == LibType::TypeBoolean ==> r is Ok,
    {
        if !cfg.is_valid(*self) {
            return Err(LibconfigError::StaleReference);
        }
        proof {
            assert(slot_wf(cfg.slots@, self.idx as int));
        }
        match &cfg.slots[self.idx].value {
            Some(Value::BoolVal(b)) => Ok(*b),
            _ => Err(LibconfigError::TypeMismatch),
        }
    }

    /// Strict 32-bit integer extraction from an already-resolved node.
    /// An `Int64` value is narrowed when it fits; otherwise
    /// `Overflow`.
    pub fn try_i32(&self, cfg: &Config) -> (r: Result<i32, LibconfigError>)
        requires
            cfg.wf(),
        ensures
            !cfg.valid(*self) ==> r == Err::<i32, LibconfigError>(LibconfigError::StaleReference),
            cfg.valid(*self) ==> match r {
                Ok(x) => cfg.node_value(*self) is Some && read_i32_v(cfg.node_value(*self)->0)
                    == Some(x as int),
                Err(e) => {
                    ||| (e == LibconfigError::TypeMismatch && cfg.node_kind(*self)
                        != LibType::TypeInt && cfg.node_kind(*self) != LibType::TypeInt64)
                    ||| (e == LibconfigError::Overflow && cfg.node_kind(*self)
                        == LibType::TypeInt64 && read_i32_v(cfg.node_value(*self)->0) is None)
                },
            },
            cfg.valid(*self) && cfg.node_kind(*self) == LibType::TypeInt ==> r is Ok,
    {
        if !cfg.is_valid(*self) {
            return Err(LibconfigError::StaleReference);
        }
        proof {
            assert(slot_wf(cfg.slots@, self.idx as int));
        }
        match &cfg.slots[self.idx].value {
            Some(Value::IntVal(n)) => Ok(*n),
            Some(Value::Int64Val(n)) => {
                if *n >= i32::MIN as i64 && *n <= i32::MAX as i64 {
                    Ok(*n as i32)
                } else {
                    Err(LibconfigError::Overflow)
                }
            },
            _ => Err(LibconfigError::TypeMismatch),
        }
    }

    /// Strict 64-bit integer extraction from an already-resolved node.
    /// An `Int` value is widened.
    pub fn try_i64(&self, cfg: &Config) -> (r: Result<i64, LibconfigError>)
        requires
            cfg.wf(),
        ensures
            !cfg.valid(*self) ==> r == Err::<i64, LibconfigError>(LibconfigError::StaleReference),
            cfg.valid(*self) ==> match r {
                Ok(x) => cfg.node_value(*self) is Some && read_i64_v(cfg.node_value(*self)->0)
                    == Some(x as int),
                Err(e) => e == LibconfigError::TypeMismatch && cfg.node_kind(*self)
                    != LibType::TypeInt && cfg.node_kind(*self) != LibType::TypeInt64,
            },
            cfg.valid(*self) && (cfg.node_kind(*self) == LibType::TypeInt || cfg.node_kind(*self)
                == LibType::TypeInt64) ==> r is Ok,
    {
        if !cfg.is_valid(*self) {
            return Err(LibconfigError::StaleReference);
        }
        proof {
            assert(slot_wf(cfg.slots@, self.idx as int));
        }
        match &cfg.slots[self.idx].value {
            Some(Value::IntVal(n)) => Ok(*n as i64),
            Some(Value::Int64Val(n)) => Ok(*n),
            _ => Err(LibconfigError::TypeMismatch),
        }
    }

    /// Strict string extraction from an already-resolved node.  The
    /// text is copied; no aliasing is exposed.
    pub fn try_string(&self, cfg: &Config) -> (r: Result<String, LibconfigError>)
        requires
            cfg.wf(),
        ensures
            !cfg.valid(*self) ==> r == Err::<String, LibconfigError>(
                LibconfigError::StaleReference,
            ),
            cfg.valid(*self) ==> match r {
                Ok(s) => cfg.node_value(*self) is Some && read_str_v(cfg.node_value(*self)->0)
                    == Some(s@),
                Err(e) => e == LibconfigError::TypeMismatch && cfg.node_kind(*self)
                    != LibType::TypeString,
            },
            cfg.valid(*self) && cfg.node_kind(*self) == LibType::TypeString ==> r is Ok,
    {
        if !cfg.is_valid(*self) {
            return Err(LibconfigError::StaleReference);
        }
        proof {
            assert(slot_wf(cfg.slots@, self.idx as int));
        }
        match &cfg.slots[self.idx].value {
            Some(Value::StrVal(s)) => Ok(s.clone()),
            _ => Err(LibconfigError::TypeMismatch),
        }
    }

    /// Strict float extraction from an already-resolved node, as the
    /// stored literal text.
    pub fn try_float_text(&self, cfg: &Config) -> (r: Result<String, LibconfigError>)
        requires
            cfg.wf(),
        ensures
            !cfg.valid(*self) ==> r == Err::<String, LibconfigError>(
                LibconfigError::StaleReference,
            ),
            cfg.valid(*self) ==> match r {
                Ok(s) => cfg.node_value(*self) is Some && read_float_v(cfg.node_value(*self)->0)
                    == Some(s@),
                Err(e) => e == LibconfigError::TypeMismatch && cfg.node_kind(*self)
                    != LibType::TypeFloat,
            },
            cfg.valid(*self) && cfg.node_kind(*self) == LibType::TypeFloat ==> r is Ok,
    {
        if !cfg.is_valid(*self) {
            return Err(LibconfigError::StaleReference);
        }
        proof {
            assert(slot_wf(cfg.slots@, self.idx as int));
        }
        match &cfg.slots[self.idx].value {
            Some(Value::FloatVal(t)) => Ok(t.clone()),
            _ => Err(LibconfigError::TypeMismatch),
        }
    }

    /// A fresh walk over this node's children, capturing the
    /// children as they stand now.  A scalar node's walk is empty.
    pub fn into_iter(&self, cfg: &Config) -> (it: SettingIter)
        requires
            cfg.wf(),
        ensures
            it.count_view() == 0,
            cfg.valid(*self) ==> it.items_view().len() == cfg.node_child_count(*self) && (forall|
                k: int,
            |
                0 <= k < it.items_view().len() ==> #[trigger] it.items_view()[k]
                    == cfg.node_child(*self, k) && cfg.valid(it.items_view()[k])),
            !cfg.valid(*self) ==> it.items_view().len() == 0,
    {
        if !cfg.is_valid(*self) {
            return SettingIter { items: Vec::new(), count: 0 };
        }
        proof {
            assert(slot_wf(cfg.slots@, self.idx as int));
        }
        let clen = cfg.slots[self.idx].children.len();
        let mut items: Vec<Setting> = Vec::new();
        let mut k: usize = 0;
        while k < clen
            invariant
                cfg.wf(),
                cfg.valid(*self),
                (self.idx as int) < cfg.slots@.len(),
                clen == cfg.slots@[self.idx as int].children@.len(),
                k <= clen,
                items@.len() == k,
                forall|m: int|
                    0 <= m < k ==> #[trigger] items@[m] == cfg.node_child(*self, m) && cfg.valid(
                        items@[m],
                    ),
            decreases clen - k,
        {
            proof {
                assert(slot_wf(cfg.slots@, self.idx as int));
                assert(child_wf(cfg.slots@, self.idx as int, k as int));
                cfg.lemma_child_attached(self.idx as int, k as int);
            }
            items.push(Setting { idx: cfg.slots[self.idx].children[k] });
            k = k + 1;
        }
        SettingIter { items, count: 0 }
    }

    /// Display hint of an integer node; `None` for a stale handle.
    pub fn get_format(&self, cfg: &Config) -> (r: Option<Format>)
        requires
            cfg.wf(),
        ensures
            cfg.valid(*self) ==> r == Some(cfg.node_fmt(*self)),
            !cfg.valid(*self) ==> r is None,
    {
        if !cfg.is_valid(*self) {
            return None;
        }
        Some(cfg.slots[self.idx].fmt)
    }
}

} // verus!
