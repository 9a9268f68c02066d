//! What the Go front end notes down beside the nodes and edges it emits.
use vstd::prelude::*;

use crate::ids::{FileId, NodeId, StringId};
use crate::kinds::Receiver;

verus! {

/// A struct embeds a type.
#[derive(Clone, Copy, Debug, PartialEq, Eq, Structural)]
pub struct GoEmbeddingHint {
    pub outer: NodeId,
    pub inner_qualified_name: StringId,
    pub pointerness: Receiver,
    pub file: FileId,
}

/// A conversion `T(g)` to a named type.
#[derive(Clone, Copy, Debug, PartialEq, Eq, Structural)]
pub struct GoNamedTypeConversionHint {
    pub call_site: NodeId,
    pub target_type_qualified_name: StringId,
    pub argument_node: NodeId,
    pub file: FileId,
}

/// What is known of the receiver expression of a method call.
#[derive(Debug)]
pub enum GoReceiverHintKind {
    /// The receiver is written as a value of a type.
    TypePrefixed { type_text: String },
    /// The receiver is written as a pointer to a type.
    PointerPrefixed { type_text: String },
    /// The receiver is a local binding.
    LocalIdent { binding_local: NodeId },
    /// The receiver is the result of a call.
    CallReturn { callee_qn: String },
}

/// Contents of a receiver hint.
pub enum ReceiverHintView {
    TypePrefixed { type_text: Seq<char> },
    PointerPrefixed { type_text: Seq<char> },
    LocalIdent { binding_local: NodeId },
    CallReturn { callee_qn: Seq<char> },
}

impl View for GoReceiverHintKind {
    type V = ReceiverHintView;

    open spec fn view(&self) -> ReceiverHintView {
        match self {
            GoReceiverHintKind::TypePrefixed { type_text } => ReceiverHintView::TypePrefixed {
                type_text: type_text@,
            },
            GoReceiverHintKind::PointerPrefixed { type_text } =>
                ReceiverHintView::PointerPrefixed { type_text: type_text@ },
            GoReceiverHintKind::LocalIdent { binding_local } => ReceiverHintView::LocalIdent {
                binding_local: *binding_local,
            },
            GoReceiverHintKind::CallReturn { callee_qn } => ReceiverHintView::CallReturn {
                callee_qn: callee_qn@,
            },
        }
    }
}

impl Clone for GoReceiverHintKind {
    fn clone(&self) -> (r: GoReceiverHintKind)
        ensures
            r@ == self@,
    {
        match self {
            GoReceiverHintKind::TypePrefixed { type_text } => GoReceiverHintKind::TypePrefixed {
                type_text: type_text.clone(),
            },
            GoReceiverHintKind::PointerPrefixed { type_text } =>
                GoReceiverHintKind::PointerPrefixed { type_text: type_text.clone() },
            GoReceiverHintKind::LocalIdent { binding_local } => GoReceiverHintKind::LocalIdent {
                binding_local: *binding_local,
            },
            GoReceiverHintKind::CallReturn { callee_qn } => GoReceiverHintKind::CallReturn {
                callee_qn: callee_qn.clone(),
            },
        }
    }
}

/// A method call on a receiver expression.
#[derive(Debug)]
pub struct GoReceiverCallHint {
    pub call_site: NodeId,
    pub callee_method: NodeId,
    pub method_name: StringId,
    pub receiver: GoReceiverHintKind,
    pub argument_count: u8,
    pub is_async: bool,
    pub file: FileId,
}

/// Contents of a receiver call hint.
pub struct ReceiverCallView {
    pub call_site: NodeId,
    pub callee_method: NodeId,
    pub method_name: StringId,
    pub receiver: ReceiverHintView,
    pub argument_count: u8,
    pub is_async: bool,
    pub file: FileId,
}

impl View for GoReceiverCallHint {
    type V = ReceiverCallView;

    open spec fn view(&self) -> ReceiverCallView {
        ReceiverCallView {
            call_site: self.call_site,
            callee_method: self.callee_method,
            method_name: self.method_name,
            receiver: self.receiver@,
            argument_count: self.argument_count,
            is_async: self.is_async,
            file: self.file,
        }
    }
}

/// The declared receiver of a method.
#[derive(Clone, Copy, Debug, PartialEq, Eq, Structural)]
pub struct GoMethodReceiverHint {
    pub method_node: NodeId,
    pub receiver_type_qualified_name: StringId,
    pub receiver_pointerness: Receiver,
    pub file: FileId,
}

/// The canonical signature of a method.
#[derive(Debug)]
pub struct GoMethodSignatureHint {
    pub method_node: NodeId,
    pub canonical_signature: String,
    pub file: FileId,
}

/// The canonical signature of a function or of a named function type.
#[derive(Debug)]
pub struct GoFunctionSignatureHint {
    pub function_node: NodeId,
    pub canonical_signature: String,
    pub file: FileId,
}

/// Contents of a signature hint.
pub struct SignatureView {
    pub node: NodeId,
    pub signature: Seq<char>,
    pub file: FileId,
}

impl View for GoMethodSignatureHint {
    type V = SignatureView;

    open spec fn view(&self) -> SignatureView {
        SignatureView {
            node: self.method_node,
            signature: self.canonical_signature@,
            file: self.file,
        }
    }
}

impl View for GoFunctionSignatureHint {
    type V = SignatureView;

    open spec fn view(&self) -> SignatureView {
        SignatureView {
            node: self.function_node,
            signature: self.canonical_signature@,
            file: self.file,
        }
    }
}

/// All hints of a file or of a graph.
pub struct GoHints {
    pub embeddings: Vec<GoEmbeddingHint>,
    pub named_type_conversions: Vec<GoNamedTypeConversionHint>,
    pub receiver_calls: Vec<GoReceiverCallHint>,
    pub method_receivers: Vec<GoMethodReceiverHint>,
    pub method_signatures: Vec<GoMethodSignatureHint>,
    pub function_signatures: Vec<GoFunctionSignatureHint>,
}

/// Contents of the hints.
pub struct HintsView {
    pub embeddings: Seq<GoEmbeddingHint>,
    pub named_type_conversions: Seq<GoNamedTypeConversionHint>,
    pub receiver_calls: Seq<ReceiverCallView>,
    pub method_receivers: Seq<GoMethodReceiverHint>,
    pub method_signatures: Seq<SignatureView>,
    pub function_signatures: Seq<SignatureView>,
}

/// Contents of a list of receiver call hints.
pub open spec fn receiver_call_views(s: Seq<GoReceiverCallHint>) -> Seq<ReceiverCallView> {
    Seq::new(s.len(), |i: int| s[i]@)
}

/// Contents of a list of method signature hints.
pub open spec fn method_signature_views(s: Seq<GoMethodSignatureHint>) -> Seq<SignatureView> {
    Seq::new(s.len(), |i: int| s[i]@)
}

/// Contents of a list of function signature hints.
pub open spec fn function_signature_views(s: Seq<GoFunctionSignatureHint>) -> Seq<SignatureView> {
    Seq::new(s.len(), |i: int| s[i]@)
}

impl View for GoHints {
    type V = HintsView;

    open spec fn view(&self) -> HintsView {
        HintsView {
            embeddings: self.embeddings@,
            named_type_conversions: self.named_type_conversions@,
            receiver_calls: receiver_call_views(self.receiver_calls@),
            method_receivers: self.method_receivers@,
            method_signatures: method_signature_views(self.method_signatures@),
            function_signatures: function_signature_views(self.function_signatures@),
        }
    }
}

impl HintsView {
    /// No hints.
    pub open spec fn none() -> HintsView {
        HintsView {
            embeddings: Seq::empty(),
            named_type_conversions: Seq::empty(),
            receiver_calls: Seq::empty(),
            method_receivers: Seq::empty(),
            method_signatures: Seq::empty(),
            function_signatures: Seq::empty(),
        }
    }
}

impl HintsView {
    /// These hints, and `other` behind them.
    pub open spec fn joined(self, other: HintsView) -> HintsView {
        HintsView {
            embeddings: self.embeddings + other.embeddings,
            named_type_conversions: self.named_type_conversions + other.named_type_conversions,
            receiver_calls: self.receiver_calls + other.receiver_calls,
            method_receivers: self.method_receivers + other.method_receivers,
            method_signatures: self.method_signatures + other.method_signatures,
            function_signatures: self.function_signatures + other.function_signatures,
        }
    }
}

impl GoHints {
    /// Takes over the hints of `other`, behind those that are there.
    pub fn append(&mut self, other: &mut GoHints)
        ensures
            final(self)@ == old(self)@.joined(old(other)@),
            final(other)@ == HintsView::none(),
    {
        let ghost a = *self;
        let ghost b = *other;
        self.embeddings.append(&mut other.embeddings);
        self.named_type_conversions.append(&mut other.named_type_conversions);
        self.receiver_calls.append(&mut other.receiver_calls);
        self.method_receivers.append(&mut other.method_receivers);
        self.method_signatures.append(&mut other.method_signatures);
        self.function_signatures.append(&mut other.function_signatures);
        proof {
            assert(self@.receiver_calls =~= a@.receiver_calls + b@.receiver_calls);
            assert(self@.method_signatures =~= a@.method_signatures + b@.method_signatures);
            assert(self@.function_signatures =~= a@.function_signatures + b@.function_signatures);
            assert(other@.receiver_calls =~= Seq::empty());
            assert(other@.method_signatures =~= Seq::empty());
            assert(other@.function_signatures =~= Seq::empty());
        }
    }

    /// No hints.
    pub fn new() -> (r: GoHints)
        ensures
            r@ == HintsView::none(),
    {
        let r = GoHints {
            embeddings: Vec::new(),
            named_type_conversions: Vec::new(),
            receiver_calls: Vec::new(),
            method_receivers: Vec::new(),
            method_signatures: Vec::new(),
            function_signatures: Vec::new(),
        };
        proof {
            assert(r@.embeddings =~= Seq::empty());
            assert(r@.named_type_conversions =~= Seq::empty());
            assert(r@.receiver_calls =~= Seq::empty());
            assert(r@.method_receivers =~= Seq::empty());
            assert(r@.method_signatures =~= Seq::empty());
            assert(r@.function_signatures =~= Seq::empty());
        }
        r
    }
}

} // verus!
