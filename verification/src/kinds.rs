//! What nodes and edges are: node kinds, edge kinds and the attributes they carry.
use vstd::prelude::*;

use crate::ids::StringId;

verus! {

/// Source language of a file.
#[derive(Clone, Copy, Debug, PartialEq, Eq, Hash, Structural)]
pub enum Language {
    C,
    Cpp,
    CSharp,
    Go,
    Java,
    JavaScript,
    Kotlin,
    Php,
    Python,
    Ruby,
    Rust,
    Swift,
    TypeScript,
}

/// What a node stands for.
#[derive(Clone, Copy, Debug, PartialEq, Eq, Hash, Structural)]
pub enum NodeKind {
    Module,
    Function,
    Method,
    Macro,
    Class,
    Struct,
    Enum,
    EnumVariant,
    Interface,
    Trait,
    Type,
    Variable,
    Constant,
    Parameter,
    Property,
    Import,
    Export,
    Endpoint,
    CallSite,
    Test,
    Other,
}

/// Whether a Go receiver or embedded field is `T` or `*T`.
#[derive(Clone, Copy, Debug, PartialEq, Eq, Hash, Structural)]
pub enum Receiver {
    Value,
    Pointer,
}

/// How a call edge found its target.
#[derive(Clone, Copy, Debug, PartialEq, Eq, Hash, Structural)]
pub enum ResolvedVia {
    Direct,
    BindingPlane,
    TypeMatch,
}

/// Where a type annotation stands.
#[derive(Clone, Copy, Debug, PartialEq, Eq, Hash, Structural)]
pub enum TypeOfContext {
    Parameter,
    Return,
    Field,
    Variable,
    TypeParameter,
    Constraint,
}

/// What an export edge exports.
#[derive(Clone, Copy, Debug, PartialEq, Eq, Hash, Structural)]
pub enum ExportKind {
    Direct,
    Reexport,
    Default,
    Namespace,
}

/// Request method of an HTTP edge or endpoint; `All` stands for every method.
#[derive(Clone, Copy, Debug, PartialEq, Eq, Hash, Structural)]
pub enum HttpMethod {
    Get,
    Post,
    Put,
    Delete,
    Patch,
    Head,
    Options,
    All,
}

/// Calling convention of a foreign call.
#[derive(Clone, Copy, Debug, PartialEq, Eq, Hash, Structural)]
pub enum FfiConvention {
    C,
    Cdecl,
    Stdcall,
    Fastcall,
    System,
}

/// Kind of a database query.
#[derive(Clone, Copy, Debug, PartialEq, Eq, Hash, Structural)]
pub enum DbQueryType {
    Select,
    Insert,
    Update,
    Delete,
    Execute,
}

/// Kind of a table write.
#[derive(Clone, Copy, Debug, PartialEq, Eq, Hash, Structural)]
pub enum TableWriteOp {
    Insert,
    Update,
    Delete,
}

/// Message broker protocol.
#[derive(Clone, Copy, Debug, PartialEq, Eq, Hash, Structural)]
pub enum MqProtocol {
    Kafka,
    Sqs,
    RabbitMq,
    Nats,
    Redis,
    Other(StringId),
}

/// Form of a lifetime constraint.
#[derive(Clone, Copy, Debug, PartialEq, Eq, Hash, Structural)]
pub enum LifetimeConstraintKind {
    Outlives,
    TypeBound,
    HigherRanked,
}

/// Form of a macro expansion.
#[derive(Clone, Copy, Debug, PartialEq, Eq, Hash, Structural)]
pub enum MacroExpansionKind {
    Derive,
    Attribute,
    Declarative,
    Function,
}

/// How one declaration wraps another.
#[derive(Clone, Copy, Debug, PartialEq, Eq, Hash, Structural)]
pub enum WrapKind {
    Decorator,
    HigherOrder,
    Middleware,
}

/// Side of a channel operation.
#[derive(Clone, Copy, Debug, PartialEq, Eq, Hash, Structural)]
pub enum ChannelRole {
    Send,
    Receive,
    Close,
}

/// One type argument of an instantiation.
#[derive(Clone, Copy, Debug, PartialEq, Eq, Hash, Structural)]
pub struct TypeArg {
    /// Name of the argument type.
    pub name: StringId,
    /// Whether the argument was inferred rather than written.
    pub inferred: bool,
}

/// The type arguments of an instantiation, in source order.
#[derive(Debug, PartialEq, Eq, Hash)]
pub enum TypeArgs {
    Nil,
    Cons(TypeArg, Box<TypeArgs>),
}

impl Clone for TypeArgs {
    fn clone(&self) -> (r: TypeArgs)
        ensures
            r == *self,
        decreases *self,
    {
        match self {
            TypeArgs::Nil => TypeArgs::Nil,
            TypeArgs::Cons(head, tail) => TypeArgs::Cons(*head, Box::new((&**tail).clone())),
        }
    }
}

impl TypeArgs {
    /// The list as a sequence.
    pub open spec fn seq(self) -> Seq<TypeArg>
        decreases self,
    {
        match self {
            TypeArgs::Nil => Seq::empty(),
            TypeArgs::Cons(head, tail) => seq![head] + tail.seq(),
        }
    }

    /// The list made of `args`, in order.
    pub fn from_slice(args: &[TypeArg]) -> (r: TypeArgs)
        ensures
            r.seq() == args@,
    {
        let mut out = TypeArgs::Nil;
        let mut i: usize = args.len();
        proof {
            assert(args@.subrange(i as int, args@.len() as int) =~= Seq::<TypeArg>::empty());
        }
        while i > 0
            invariant
                i <= args@.len(),
                out.seq() == args@.subrange(i as int, args@.len() as int),
            decreases i,
        {
            i = i - 1;
            out = TypeArgs::Cons(args[i], Box::new(out));
            proof {
                assert(args@.subrange(i as int, args@.len() as int) =~= seq![args@[i as int]]
                    + args@.subrange(i + 1, args@.len() as int));
            }
        }
        proof {
            assert(args@.subrange(0, args@.len() as int) =~= args@);
        }
        out
    }

    /// The list as a vector.
    pub fn to_vec(&self) -> (r: Vec<TypeArg>)
        ensures
            r@ == self.seq(),
    {
        let mut out: Vec<TypeArg> = Vec::new();
        let mut rest: &TypeArgs = self;
        loop
            invariant
                out@ + rest.seq() == self.seq(),
            ensures
                out@ == self.seq(),
            decreases *rest,
        {
            match rest {
                TypeArgs::Nil => {
                    proof {
                        assert(out@ + Seq::<TypeArg>::empty() =~= out@);
                    }
                    break ;
                },
                TypeArgs::Cons(head, tail) => {
                    proof {
                        assert(out@ + (seq![*head] + tail.seq()) =~= out@.push(*head) + tail.seq());
                    }
                    out.push(*head);
                    rest = &**tail;
                },
            }
        }
        out
    }
}

/// What an edge says of its source and target.
#[allow(inconsistent_fields)]
#[derive(Debug, PartialEq, Eq, Hash)]
pub enum EdgeKind {
    Defines,
    Contains,
    Calls { argument_count: u8, is_async: bool, resolved_via: ResolvedVia },
    References,
    Imports { alias: Option<StringId>, is_wildcard: bool },
    Exports { kind: ExportKind, alias: Option<StringId> },
    TypeOf { context: Option<TypeOfContext>, index: Option<u16>, name: Option<StringId> },
    Inherits,
    Implements,
    LifetimeConstraint { constraint_kind: LifetimeConstraintKind },
    TraitMethodBinding { trait_name: StringId, impl_type: StringId, is_ambiguous: bool },
    MacroExpansion { expansion_kind: MacroExpansionKind, is_verified: bool },
    FfiCall { convention: FfiConvention },
    HttpRequest { method: HttpMethod, url: Option<StringId> },
    GrpcCall { service: StringId, method: StringId },
    WebAssemblyCall,
    DbQuery { query_type: DbQueryType, table: Option<StringId> },
    TableRead { table_name: StringId, schema: Option<StringId> },
    TableWrite { table_name: StringId, schema: Option<StringId>, operation: TableWriteOp },
    TriggeredBy { trigger_name: StringId, schema: Option<StringId> },
    MessageQueue { protocol: MqProtocol, topic: Option<StringId> },
    WebSocket { event: Option<StringId> },
    GraphQLOperation { operation: StringId },
    ProcessExec { command: StringId },
    FileIpc { path_pattern: Option<StringId> },
    ProtocolCall { protocol: StringId, metadata: Option<StringId> },
    GenericBound,
    AnnotatedWith,
    AnnotationParam,
    LambdaCaptures,
    ModuleExports,
    ModuleRequires,
    ModuleOpens,
    ModuleProvides,
    TypeArgument,
    ExtensionReceiver,
    CompanionOf,
    SealedPermit,
    Wraps { kind: WrapKind, position: Option<u16> },
    ChannelPeer { role: ChannelRole },
    Instantiates { type_args: TypeArgs, is_partial: bool },
}

impl Clone for EdgeKind {
    fn clone(&self) -> (r: EdgeKind)
        ensures
            r == *self,
    {
        match self {
            EdgeKind::Defines => EdgeKind::Defines,
            EdgeKind::Contains => EdgeKind::Contains,
            EdgeKind::Calls { argument_count, is_async, resolved_via } => EdgeKind::Calls {
                argument_count: *argument_count,
                is_async: *is_async,
                resolved_via: *resolved_via,
            },
            EdgeKind::References => EdgeKind::References,
            EdgeKind::Imports { alias, is_wildcard } => EdgeKind::Imports {
                alias: *alias,
                is_wildcard: *is_wildcard,
            },
            EdgeKind::Exports { kind, alias } => EdgeKind::Exports { kind: *kind, alias: *alias },
            EdgeKind::TypeOf { context, index, name } => EdgeKind::TypeOf {
                context: *context,
                index: *index,
                name: *name,
            },
            EdgeKind::Inherits => EdgeKind::Inherits,
            EdgeKind::Implements => EdgeKind::Implements,
            EdgeKind::LifetimeConstraint { constraint_kind } => EdgeKind::LifetimeConstraint {
                constraint_kind: *constraint_kind,
            },
            EdgeKind::TraitMethodBinding { trait_name, impl_type, is_ambiguous } =>
                EdgeKind::TraitMethodBinding {
                trait_name: *trait_name,
                impl_type: *impl_type,
                is_ambiguous: *is_ambiguous,
            },
            EdgeKind::MacroExpansion { expansion_kind, is_verified } => EdgeKind::MacroExpansion {
                expansion_kind: *expansion_kind,
                is_verified: *is_verified,
            },
            EdgeKind::FfiCall { convention } => EdgeKind::FfiCall { convention: *convention },
            EdgeKind::HttpRequest { method, url } => EdgeKind::HttpRequest {
                method: *method,
                url: *url,
            },
            EdgeKind::GrpcCall { service, method } => EdgeKind::GrpcCall {
                service: *service,
                method: *method,
            },
            EdgeKind::WebAssemblyCall => EdgeKind::WebAssemblyCall,
            EdgeKind::DbQuery { query_type, table } => EdgeKind::DbQuery {
                query_type: *query_type,
                table: *table,
            },
            EdgeKind::TableRead { table_name, schema } => EdgeKind::TableRead {
                table_name: *table_name,
                schema: *schema,
            },
            EdgeKind::TableWrite { table_name, schema, operation } => EdgeKind::TableWrite {
                table_name: *table_name,
                schema: *schema,
                operation: *operation,
            },
            EdgeKind::TriggeredBy { trigger_name, schema } => EdgeKind::TriggeredBy {
                trigger_name: *trigger_name,
                schema: *schema,
            },
            EdgeKind::MessageQueue { protocol, topic } => EdgeKind::MessageQueue {
                protocol: *protocol,
                topic: *topic,
            },
            EdgeKind::WebSocket { event } => EdgeKind::WebSocket { event: *event },
            EdgeKind::GraphQLOperation { operation } => EdgeKind::GraphQLOperation {
                operation: *operation,
            },
            EdgeKind::ProcessExec { command } => EdgeKind::ProcessExec { command: *command },
            EdgeKind::FileIpc { path_pattern } => EdgeKind::FileIpc {
                path_pattern: *path_pattern,
            },
            EdgeKind::ProtocolCall { protocol, metadata } => EdgeKind::ProtocolCall {
                protocol: *protocol,
                metadata: *metadata,
            },
            EdgeKind::GenericBound => EdgeKind::GenericBound,
            EdgeKind::AnnotatedWith => EdgeKind::AnnotatedWith,
            EdgeKind::AnnotationParam => EdgeKind::AnnotationParam,
            EdgeKind::LambdaCaptures => EdgeKind::LambdaCaptures,
            EdgeKind::ModuleExports => EdgeKind::ModuleExports,
            EdgeKind::ModuleRequires => EdgeKind::ModuleRequires,
            EdgeKind::ModuleOpens => EdgeKind::ModuleOpens,
            EdgeKind::ModuleProvides => EdgeKind::ModuleProvides,
            EdgeKind::TypeArgument => EdgeKind::TypeArgument,
            EdgeKind::ExtensionReceiver => EdgeKind::ExtensionReceiver,
            EdgeKind::CompanionOf => EdgeKind::CompanionOf,
            EdgeKind::SealedPermit => EdgeKind::SealedPermit,
            EdgeKind::Wraps { kind, position } => EdgeKind::Wraps {
                kind: *kind,
                position: *position,
            },
            EdgeKind::ChannelPeer { role } => EdgeKind::ChannelPeer { role: *role },
            EdgeKind::Instantiates { type_args, is_partial } => EdgeKind::Instantiates {
                type_args: type_args.clone(),
                is_partial: *is_partial,
            },
        }
    }
}

/// Whether two lists of type arguments are the same.
fn same_type_args(a: &TypeArgs, b: &TypeArgs) -> (r: bool)
    ensures
        r == (*a == *b),
    decreases *a,
{
    match (a, b) {
        (TypeArgs::Nil, TypeArgs::Nil) => true,
        (TypeArgs::Cons(x, xs), TypeArgs::Cons(y, ys)) => *x == *y && same_type_args(&**xs, &**ys),
        _ => false,
    }
}

/// Whether two edge kinds are the same.
pub fn same_kind(a: &EdgeKind, b: &EdgeKind) -> (r: bool)
    ensures
        r == (*a == *b),
{
    match (a, b) {
        (EdgeKind::Defines, EdgeKind::Defines) => true,
        (EdgeKind::Contains, EdgeKind::Contains) => true,
        (EdgeKind::Calls { argument_count: x0, is_async: x1, resolved_via: x2 }, EdgeKind::Calls { argument_count: y0, is_async: y1, resolved_via: y2 }) => *x0 == *y0 && *x1 == *y1 && *x2 == *y2,
        (EdgeKind::References, EdgeKind::References) => true,
        (EdgeKind::Imports { alias: x0, is_wildcard: x1 }, EdgeKind::Imports { alias: y0, is_wildcard: y1 }) => *x0 == *y0 && *x1 == *y1,
        (EdgeKind::Exports { kind: x0, alias: x1 }, EdgeKind::Exports { kind: y0, alias: y1 }) => *x0 == *y0 && *x1 == *y1,
        (EdgeKind::TypeOf { context: x0, index: x1, name: x2 }, EdgeKind::TypeOf { context: y0, index: y1, name: y2 }) => *x0 == *y0 && *x1 == *y1 && *x2 == *y2,
        (EdgeKind::Inherits, EdgeKind::Inherits) => true,
        (EdgeKind::Implements, EdgeKind::Implements) => true,
        (EdgeKind::LifetimeConstraint { constraint_kind: x0 }, EdgeKind::LifetimeConstraint { constraint_kind: y0 }) => *x0 == *y0,
        (EdgeKind::TraitMethodBinding { trait_name: x0, impl_type: x1, is_ambiguous: x2 }, EdgeKind::TraitMethodBinding { trait_name: y0, impl_type: y1, is_ambiguous: y2 }) => *x0 == *y0 && *x1 == *y1 && *x2 == *y2,
        (EdgeKind::MacroExpansion { expansion_kind: x0, is_verified: x1 }, EdgeKind::MacroExpansion { expansion_kind: y0, is_verified: y1 }) => *x0 == *y0 && *x1 == *y1,
        (EdgeKind::FfiCall { convention: x0 }, EdgeKind::FfiCall { convention: y0 }) => *x0 == *y0,
        (EdgeKind::HttpRequest { method: x0, url: x1 }, EdgeKind::HttpRequest { method: y0, url: y1 }) => *x0 == *y0 && *x1 == *y1,
        (EdgeKind::GrpcCall { service: x0, method: x1 }, EdgeKind::GrpcCall { service: y0, method: y1 }) => *x0 == *y0 && *x1 == *y1,
        (EdgeKind::WebAssemblyCall, EdgeKind::WebAssemblyCall) => true,
        (EdgeKind::DbQuery { query_type: x0, table: x1 }, EdgeKind::DbQuery { query_type: y0, table: y1 }) => *x0 == *y0 && *x1 == *y1,
        (EdgeKind::TableRead { table_name: x0, schema: x1 }, EdgeKind::TableRead { table_name: y0, schema: y1 }) => *x0 == *y0 && *x1 == *y1,
        (EdgeKind::TableWrite { table_name: x0, schema: x1, operation: x2 }, EdgeKind::TableWrite { table_name: y0, schema: y1, operation: y2 }) => *x0 == *y0 && *x1 == *y1 && *x2 == *y2,
        (EdgeKind::TriggeredBy { trigger_name: x0, schema: x1 }, EdgeKind::TriggeredBy { trigger_name: y0, schema: y1 }) => *x0 == *y0 && *x1 == *y1,
        (EdgeKind::MessageQueue { protocol: x0, topic: x1 }, EdgeKind::MessageQueue { protocol: y0, topic: y1 }) => *x0 == *y0 && *x1 == *y1,
        (EdgeKind::WebSocket { event: x0 }, EdgeKind::WebSocket { event: y0 }) => *x0 == *y0,
        (EdgeKind::GraphQLOperation { operation: x0 }, EdgeKind::GraphQLOperation { operation: y0 }) => *x0 == *y0,
        (EdgeKind::ProcessExec { command: x0 }, EdgeKind::ProcessExec { command: y0 }) => *x0 == *y0,
        (EdgeKind::FileIpc { path_pattern: x0 }, EdgeKind::FileIpc { path_pattern: y0 }) => *x0 == *y0,
        (EdgeKind::ProtocolCall { protocol: x0, metadata: x1 }, EdgeKind::ProtocolCall { protocol: y0, metadata: y1 }) => *x0 == *y0 && *x1 == *y1,
        (EdgeKind::GenericBound, EdgeKind::GenericBound) => true,
        (EdgeKind::AnnotatedWith, EdgeKind::AnnotatedWith) => true,
        (EdgeKind::AnnotationParam, EdgeKind::AnnotationParam) => true,
        (EdgeKind::LambdaCaptures, EdgeKind::LambdaCaptures) => true,
        (EdgeKind::ModuleExports, EdgeKind::ModuleExports) => true,
        (EdgeKind::ModuleRequires, EdgeKind::ModuleRequires) => true,
        (EdgeKind::ModuleOpens, EdgeKind::ModuleOpens) => true,
        (EdgeKind::ModuleProvides, EdgeKind::ModuleProvides) => true,
        (EdgeKind::TypeArgument, EdgeKind::TypeArgument) => true,
        (EdgeKind::ExtensionReceiver, EdgeKind::ExtensionReceiver) => true,
        (EdgeKind::CompanionOf, EdgeKind::CompanionOf) => true,
        (EdgeKind::SealedPermit, EdgeKind::SealedPermit) => true,
        (EdgeKind::Wraps { kind: x0, position: x1 }, EdgeKind::Wraps { kind: y0, position: y1 }) => *x0 == *y0 && *x1 == *y1,
        (EdgeKind::ChannelPeer { role: x0 }, EdgeKind::ChannelPeer { role: y0 }) => *x0 == *y0,
        (
            EdgeKind::Instantiates { type_args: x0, is_partial: x1 },
            EdgeKind::Instantiates { type_args: y0, is_partial: y1 },
        ) => same_type_args(x0, y0) && *x1 == *y1,
        _ => false,
    }
}

} // verus!
