//! Calls through C function pointers: what the C front end stages, and the tables that
//! the graph keeps.
use vstd::prelude::*;

use crate::ids::{FileId, NodeId, StringId};
use crate::lists::{copied_list, views, Copied};
use crate::strings::text_of;
use crate::text::same_text;

verus! {

/// A function is bound to a field of a struct instance.
#[derive(Debug)]
pub struct PendingBinding {
    pub struct_tag: String,
    pub field_name: String,
    pub instance_name: String,
    pub target_fn_name: String,
}

/// Contents of a pending binding.
pub struct PendingBindingView {
    pub struct_tag: Seq<char>,
    pub field_name: Seq<char>,
    pub instance_name: Seq<char>,
    pub target_fn_name: Seq<char>,
}

impl View for PendingBinding {
    type V = PendingBindingView;

    open spec fn view(&self) -> PendingBindingView {
        PendingBindingView {
            struct_tag: self.struct_tag@,
            field_name: self.field_name@,
            instance_name: self.instance_name@,
            target_fn_name: self.target_fn_name@,
        }
    }
}

impl Copied for PendingBinding {
    fn copied(&self) -> (r: PendingBinding) {
        PendingBinding {
            struct_tag: self.struct_tag.clone(),
            field_name: self.field_name.clone(),
            instance_name: self.instance_name.clone(),
            target_fn_name: self.target_fn_name.clone(),
        }
    }
}

/// The expression through which a function pointer is called.
#[derive(Debug)]
pub enum IndirectShape {
    /// A field of a named receiver.
    FieldExpr { receiver_name: String, field_name: String },
    /// A pointer variable.
    PointerExpr { var_name: String },
}

/// Contents of a callsite shape.
pub enum ShapeView {
    FieldExpr { receiver_name: Seq<char>, field_name: Seq<char> },
    PointerExpr { var_name: Seq<char> },
}

impl View for IndirectShape {
    type V = ShapeView;

    open spec fn view(&self) -> ShapeView {
        match self {
            IndirectShape::FieldExpr { receiver_name, field_name } => ShapeView::FieldExpr {
                receiver_name: receiver_name@,
                field_name: field_name@,
            },
            IndirectShape::PointerExpr { var_name } => ShapeView::PointerExpr {
                var_name: var_name@,
            },
        }
    }
}

impl Copied for IndirectShape {
    fn copied(&self) -> (r: IndirectShape) {
        match self {
            IndirectShape::FieldExpr { receiver_name, field_name } => IndirectShape::FieldExpr {
                receiver_name: receiver_name.clone(),
                field_name: field_name.clone(),
            },
            IndirectShape::PointerExpr { var_name } => IndirectShape::PointerExpr {
                var_name: var_name.clone(),
            },
        }
    }
}

/// A staged call through a function pointer.
#[derive(Debug)]
pub struct PendingIndirectCallsite {
    pub caller_qualified_name: String,
    pub shape: IndirectShape,
    /// Byte range of the call.
    pub use_span: (usize, usize),
    pub argument_count: u32,
    pub is_async: bool,
}

/// Contents of a staged callsite.
pub struct PendingCallsiteView {
    pub caller_qualified_name: Seq<char>,
    pub shape: ShapeView,
    pub use_span: (usize, usize),
    pub argument_count: u32,
    pub is_async: bool,
}

impl View for PendingIndirectCallsite {
    type V = PendingCallsiteView;

    open spec fn view(&self) -> PendingCallsiteView {
        PendingCallsiteView {
            caller_qualified_name: self.caller_qualified_name@,
            shape: self.shape@,
            use_span: self.use_span,
            argument_count: self.argument_count,
            is_async: self.is_async,
        }
    }
}

impl Copied for PendingIndirectCallsite {
    fn copied(&self) -> (r: PendingIndirectCallsite) {
        PendingIndirectCallsite {
            caller_qualified_name: self.caller_qualified_name.clone(),
            shape: self.shape.copied(),
            use_span: self.use_span,
            argument_count: self.argument_count,
            is_async: self.is_async,
        }
    }
}

/// A name that is declared in a block, with the type it is declared with.
#[derive(Debug)]
pub struct ScopeBinding {
    pub name: String,
    pub type_token: String,
    /// Byte range in which the name is visible.
    pub visible_from: usize,
    pub visible_to: usize,
}

/// Contents of a scope binding.
pub struct ScopeBindingView {
    pub name: Seq<char>,
    pub type_token: Seq<char>,
    pub visible_from: usize,
    pub visible_to: usize,
}

impl View for ScopeBinding {
    type V = ScopeBindingView;

    open spec fn view(&self) -> ScopeBindingView {
        ScopeBindingView {
            name: self.name@,
            type_token: self.type_token@,
            visible_from: self.visible_from,
            visible_to: self.visible_to,
        }
    }
}

impl Copied for ScopeBinding {
    fn copied(&self) -> (r: ScopeBinding) {
        ScopeBinding {
            name: self.name.clone(),
            type_token: self.type_token.clone(),
            visible_from: self.visible_from,
            visible_to: self.visible_to,
        }
    }
}

/// The names declared in the blocks of one file.
#[derive(Debug)]
pub struct LocalScopeIndex {
    pub bindings: Vec<ScopeBinding>,
}

impl View for LocalScopeIndex {
    type V = Seq<ScopeBindingView>;

    open spec fn view(&self) -> Seq<ScopeBindingView> {
        views(self.bindings@)
    }
}

impl Copied for LocalScopeIndex {
    fn copied(&self) -> (r: LocalScopeIndex) {
        LocalScopeIndex { bindings: copied_list(&self.bindings) }
    }
}

/// `b` declares `name`, visibly at `at`.
pub open spec fn declares(b: ScopeBindingView, name: Seq<char>, at: usize) -> bool {
    b.name == name && b.visible_from <= at < b.visible_to
}

/// Position of the innermost declaration of `name` visible at `at` among the first `n`:
/// the one that comes into sight last.
pub open spec fn innermost(scope: Seq<ScopeBindingView>, name: Seq<char>, at: usize, n: int) -> Option<
    int,
>
    decreases n,
{
    if n <= 0 {
        None
    } else {
        let before = innermost(scope, name, at, n - 1);
        if declares(scope[n - 1], name, at) {
            match before {
                Some(i) => if scope[i].visible_from <= scope[n - 1].visible_from {
                    Some(n - 1)
                } else {
                    before
                },
                None => Some(n - 1),
            }
        } else {
            before
        }
    }
}

/// The type of the innermost declaration of `name` visible at `at`.
pub open spec fn declared_type_at(scope: Seq<ScopeBindingView>, name: Seq<char>, at: usize) -> Option<
    Seq<char>,
> {
    match innermost(scope, name, at, scope.len() as int) {
        Some(i) => Some(scope[i].type_token),
        None => None,
    }
}

impl LocalScopeIndex {
    /// An index without declarations.
    pub fn new() -> (r: LocalScopeIndex)
        ensures
            r@ == Seq::<ScopeBindingView>::empty(),
    {
        let r = LocalScopeIndex { bindings: Vec::new() };
        proof {
            assert(r@ =~= Seq::<ScopeBindingView>::empty());
        }
        r
    }

    /// The type with which `name` is declared where it is used at byte `at`.
    pub fn resolve_type(&self, name: &str, at: usize) -> (r: Option<String>)
        ensures
            text_of(r) == declared_type_at(self@, name@, at),
    {
        let mut best: Option<usize> = None;
        for i in 0..self.bindings.len()
            invariant
                match best {
                    Some(b) => b < i && innermost(self@, name@, at, i as int) == Some(b as int),
                    None => innermost(self@, name@, at, i as int) is None,
                },
        {
            let b = &self.bindings[i];
            assert(self@[i as int] == b@);
            if same_text(b.name.as_str(), name) && b.visible_from <= at && at < b.visible_to {
                match best {
                    Some(k) => {
                        assert(self@[k as int] == self.bindings@[k as int]@);
                        if self.bindings[k].visible_from <= b.visible_from {
                            best = Some(i);
                        }
                    },
                    None => {
                        best = Some(i);
                    },
                }
            }
        }
        match best {
            Some(k) => {
                assert(self@[k as int] == self.bindings@[k as int]@);
                Some(self.bindings[k].type_token.clone())
            },
            None => None,
        }
    }
}

/// What the C front end stages for one file.
#[derive(Debug)]
pub struct CIndirectStagingPayload {
    /// Names, local to the staging graph, of functions whose address is taken.
    pub pending_address_taken_names: Vec<StringId>,
    /// Struct tag, field name and signature of each function-pointer field.
    pub pending_struct_field_signatures: Vec<(String, String, String)>,
    pub pending_bindings: Vec<PendingBinding>,
    pub pending_indirect_callsites: Vec<PendingIndirectCallsite>,
    pub local_scope_index: Option<LocalScopeIndex>,
}

impl CIndirectStagingPayload {
    /// Nothing is staged.
    pub fn new() -> (r: CIndirectStagingPayload)
        ensures
            r.pending_address_taken_names@.len() == 0,
            r.pending_struct_field_signatures@.len() == 0,
            r.pending_bindings@.len() == 0,
            r.pending_indirect_callsites@.len() == 0,
            r.local_scope_index is None,
    {
        CIndirectStagingPayload {
            pending_address_taken_names: Vec::new(),
            pending_struct_field_signatures: Vec::new(),
            pending_bindings: Vec::new(),
            pending_indirect_callsites: Vec::new(),
            local_scope_index: None,
        }
    }
}

/// Struct tag and field name of a function-pointer field.
#[derive(Clone, Copy, Debug, PartialEq, Eq, Structural)]
pub struct FieldKey {
    pub struct_tag: StringId,
    pub field_name: StringId,
}

/// The signature of a function-pointer field.
#[derive(Clone, Copy, Debug, PartialEq, Eq, Structural)]
pub struct FieldSignature {
    pub field: FieldKey,
    pub signature: StringId,
}

/// A function bound to a function-pointer field of an instance.
#[derive(Clone, Copy, Debug, PartialEq, Eq, Structural)]
pub struct BindingEntry {
    pub field: FieldKey,
    pub instance: NodeId,
    pub target_fn: NodeId,
}

/// The signature of a function.
#[derive(Clone, Copy, Debug, PartialEq, Eq, Structural)]
pub struct FnSignature {
    pub node: NodeId,
    pub signature: StringId,
}

/// A call through a function pointer.
#[derive(Debug)]
pub struct IndirectCallsite {
    pub caller: NodeId,
    pub file_id: FileId,
    pub shape: IndirectShape,
    /// Byte range of the call.
    pub use_span: (usize, usize),
    pub argument_count: u32,
    pub is_async: bool,
}

/// Contents of a callsite.
pub struct CallsiteView {
    pub caller: NodeId,
    pub file_id: FileId,
    pub shape: ShapeView,
    pub use_span: (usize, usize),
    pub argument_count: u32,
    pub is_async: bool,
}

impl View for IndirectCallsite {
    type V = CallsiteView;

    open spec fn view(&self) -> CallsiteView {
        CallsiteView {
            caller: self.caller,
            file_id: self.file_id,
            shape: self.shape@,
            use_span: self.use_span,
            argument_count: self.argument_count,
            is_async: self.is_async,
        }
    }
}

/// The declarations of one file.
#[derive(Debug)]
pub struct FileScope {
    pub file: FileId,
    pub index: LocalScopeIndex,
}

/// Contents of the declarations of one file.
pub struct FileScopeView {
    pub file: FileId,
    pub index: Seq<ScopeBindingView>,
}

impl View for FileScope {
    type V = FileScopeView;

    open spec fn view(&self) -> FileScopeView {
        FileScopeView { file: self.file, index: self.index@ }
    }
}

/// What the graph knows of calls through C function pointers.
#[derive(Debug)]
pub struct CIndirectSideTables {
    pub struct_field_fnptr: Vec<FieldSignature>,
    pub bindings_by_field: Vec<BindingEntry>,
    pub fn_signature: Vec<FnSignature>,
    pub pending_callsites: Vec<IndirectCallsite>,
    pub local_scope_indices: Vec<FileScope>,
}

/// Contents of the tables.
pub struct TablesView {
    pub struct_field_fnptr: Seq<FieldSignature>,
    pub bindings_by_field: Seq<BindingEntry>,
    pub fn_signature: Seq<FnSignature>,
    pub pending_callsites: Seq<CallsiteView>,
    pub local_scope_indices: Seq<FileScopeView>,
}

impl View for CIndirectSideTables {
    type V = TablesView;

    open spec fn view(&self) -> TablesView {
        TablesView {
            struct_field_fnptr: self.struct_field_fnptr@,
            bindings_by_field: self.bindings_by_field@,
            fn_signature: self.fn_signature@,
            pending_callsites: views(self.pending_callsites@),
            local_scope_indices: views(self.local_scope_indices@),
        }
    }
}

impl TablesView {
    /// Every field, every function and every file is listed once.
    pub open spec fn wf(self) -> bool {
        &&& forall|i: int, j: int|
            0 <= i < j < self.struct_field_fnptr.len() ==> (#[trigger] self.struct_field_fnptr[i]).field
                != (#[trigger] self.struct_field_fnptr[j]).field
        &&& forall|i: int, j: int|
            0 <= i < j < self.fn_signature.len() ==> (#[trigger] self.fn_signature[i]).node != (
            #[trigger] self.fn_signature[j]).node
        &&& forall|i: int, j: int|
            0 <= i < j < self.local_scope_indices.len() ==> (#[trigger] self.local_scope_indices[i]).file
                != (#[trigger] self.local_scope_indices[j]).file
    }
}

/// Optional tables are well formed.
pub open spec fn tables_wf(t: Option<TablesView>) -> bool {
    match t {
        Some(t) => t.wf(),
        None => true,
    }
}

/// Contents of optional tables.
pub open spec fn tables_of(t: Option<CIndirectSideTables>) -> Option<TablesView> {
    match t {
        Some(t) => Some(t@),
        None => None,
    }
}

/// The signature of field `key`, from position `i` on.
pub open spec fn field_signature_from(s: Seq<FieldSignature>, key: FieldKey, i: int) -> Option<
    StringId,
>
    decreases s.len() - i,
{
    if i < 0 || i >= s.len() {
        None
    } else if s[i].field == key {
        Some(s[i].signature)
    } else {
        field_signature_from(s, key, i + 1)
    }
}

/// The signature of function `node`, from position `i` on.
pub open spec fn fn_signature_from(s: Seq<FnSignature>, node: NodeId, i: int) -> Option<StringId>
    decreases s.len() - i,
{
    if i < 0 || i >= s.len() {
        None
    } else if s[i].node == node {
        Some(s[i].signature)
    } else {
        fn_signature_from(s, node, i + 1)
    }
}

/// The declarations of `file`, from position `i` on.
pub open spec fn scope_from(s: Seq<FileScopeView>, file: FileId, i: int) -> Option<int>
    decreases s.len() - i,
{
    if i < 0 || i >= s.len() {
        None
    } else if s[i].file == file {
        Some(i)
    } else {
        scope_from(s, file, i + 1)
    }
}

impl CIndirectSideTables {
    /// Empty tables.
    pub fn new() -> (r: CIndirectSideTables)
        ensures
            r@.wf(),
            r@.struct_field_fnptr.len() == 0,
            r@.bindings_by_field.len() == 0,
            r@.fn_signature.len() == 0,
            r@.pending_callsites.len() == 0,
            r@.local_scope_indices.len() == 0,
    {
        CIndirectSideTables {
            struct_field_fnptr: Vec::new(),
            bindings_by_field: Vec::new(),
            fn_signature: Vec::new(),
            pending_callsites: Vec::new(),
            local_scope_indices: Vec::new(),
        }
    }

    /// The signature of field `key`.
    pub fn field_signature(&self, key: FieldKey) -> (r: Option<StringId>)
        ensures
            r == field_signature_from(self@.struct_field_fnptr, key, 0),
    {
        for i in 0..self.struct_field_fnptr.len()
            invariant
                field_signature_from(self@.struct_field_fnptr, key, 0) == field_signature_from(
                    self@.struct_field_fnptr,
                    key,
                    i as int,
                ),
        {
            if self.struct_field_fnptr[i].field == key {
                return Some(self.struct_field_fnptr[i].signature);
            }
        }
        None
    }

    /// The signature of function `node`.
    pub fn signature_of(&self, node: NodeId) -> (r: Option<StringId>)
        ensures
            r == fn_signature_from(self@.fn_signature, node, 0),
    {
        for i in 0..self.fn_signature.len()
            invariant
                fn_signature_from(self@.fn_signature, node, 0) == fn_signature_from(
                    self@.fn_signature,
                    node,
                    i as int,
                ),
        {
            if self.fn_signature[i].node == node {
                return Some(self.fn_signature[i].signature);
            }
        }
        None
    }

    /// The declarations of `file`.
    pub fn scope_index_for(&self, file: FileId) -> (r: Option<&LocalScopeIndex>)
        ensures
            match r {
                Some(x) => match scope_from(self@.local_scope_indices, file, 0) {
                    Some(i) => x@ == self@.local_scope_indices[i].index,
                    None => false,
                },
                None => scope_from(self@.local_scope_indices, file, 0) is None,
            },
    {
        for i in 0..self.local_scope_indices.len()
            invariant
                scope_from(self@.local_scope_indices, file, 0) == scope_from(
                    self@.local_scope_indices,
                    file,
                    i as int,
                ),
        {
            assert(self@.local_scope_indices[i as int] == self.local_scope_indices@[i as int]@);
            if self.local_scope_indices[i].file == file {
                return Some(&self.local_scope_indices[i].index);
            }
        }
        None
    }
}

} // verus!
