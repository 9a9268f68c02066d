//! Renumbering the strings that nodes and edges name.
use vstd::prelude::*;

use crate::arena::NodeEntry;
use crate::ids::StringId;
use crate::kinds::{EdgeKind, MqProtocol, TypeArg, TypeArgs};
use crate::strings::{renumbered, renumbered_option, StringRemap};

verus! {

/// What `id` becomes. With `local_only`, identities of the graph stay as they are.
pub open spec fn on_id(remap: Map<u32, u32>, local_only: bool, id: StringId) -> StringId {
    if local_only && !id.local() {
        id
    } else {
        renumbered(remap, id)
    }
}

/// What an optional identity becomes.
pub open spec fn on_option(remap: Map<u32, u32>, local_only: bool, id: Option<StringId>) -> Option<
    StringId,
> {
    match id {
        Some(i) => Some(on_id(remap, local_only, i)),
        None => None,
    }
}

/// What a protocol becomes.
pub open spec fn on_protocol(remap: Map<u32, u32>, local_only: bool, p: MqProtocol) -> MqProtocol {
    match p {
        MqProtocol::Other(s) => MqProtocol::Other(on_id(remap, local_only, s)),
        _ => p,
    }
}

/// What type arguments become.
pub open spec fn on_type_args(remap: Map<u32, u32>, local_only: bool, args: TypeArgs) -> TypeArgs
    decreases args,
{
    match args {
        TypeArgs::Nil => TypeArgs::Nil,
        TypeArgs::Cons(head, tail) => TypeArgs::Cons(
            TypeArg { name: on_id(remap, local_only, head.name), ..head },
            Box::new(on_type_args(remap, local_only, *tail)),
        ),
    }
}

/// What an edge kind becomes: every string that it names is renumbered.
pub open spec fn on_kind(remap: Map<u32, u32>, local_only: bool, kind: EdgeKind) -> EdgeKind {
    match kind {
        EdgeKind::Imports { alias, is_wildcard } => EdgeKind::Imports {
            alias: on_option(remap, local_only, alias),
            is_wildcard,
        },
        EdgeKind::Exports { kind, alias } => EdgeKind::Exports {
            kind,
            alias: on_option(remap, local_only, alias),
        },
        EdgeKind::TypeOf { context, index, name } => EdgeKind::TypeOf {
            context,
            index,
            name: on_option(remap, local_only, name),
        },
        EdgeKind::TraitMethodBinding { trait_name, impl_type, is_ambiguous } => EdgeKind::TraitMethodBinding {
            trait_name: on_id(remap, local_only, trait_name),
            impl_type: on_id(remap, local_only, impl_type),
            is_ambiguous,
        },
        EdgeKind::HttpRequest { method, url } => EdgeKind::HttpRequest {
            method,
            url: on_option(remap, local_only, url),
        },
        EdgeKind::GrpcCall { service, method } => EdgeKind::GrpcCall {
            service: on_id(remap, local_only, service),
            method: on_id(remap, local_only, method),
        },
        EdgeKind::DbQuery { query_type, table } => EdgeKind::DbQuery {
            query_type,
            table: on_option(remap, local_only, table),
        },
        EdgeKind::TableRead { table_name, schema } => EdgeKind::TableRead {
            table_name: on_id(remap, local_only, table_name),
            schema: on_option(remap, local_only, schema),
        },
        EdgeKind::TableWrite { table_name, schema, operation } => EdgeKind::TableWrite {
            table_name: on_id(remap, local_only, table_name),
            schema: on_option(remap, local_only, schema),
            operation,
        },
        EdgeKind::TriggeredBy { trigger_name, schema } => EdgeKind::TriggeredBy {
            trigger_name: on_id(remap, local_only, trigger_name),
            schema: on_option(remap, local_only, schema),
        },
        EdgeKind::MessageQueue { protocol, topic } => EdgeKind::MessageQueue {
            protocol: on_protocol(remap, local_only, protocol),
            topic: on_option(remap, local_only, topic),
        },
        EdgeKind::WebSocket { event } => EdgeKind::WebSocket {
            event: on_option(remap, local_only, event),
        },
        EdgeKind::GraphQLOperation { operation } => EdgeKind::GraphQLOperation {
            operation: on_id(remap, local_only, operation),
        },
        EdgeKind::ProcessExec { command } => EdgeKind::ProcessExec {
            command: on_id(remap, local_only, command),
        },
        EdgeKind::FileIpc { path_pattern } => EdgeKind::FileIpc {
            path_pattern: on_option(remap, local_only, path_pattern),
        },
        EdgeKind::ProtocolCall { protocol, metadata } => EdgeKind::ProtocolCall {
            protocol: on_id(remap, local_only, protocol),
            metadata: on_option(remap, local_only, metadata),
        },
        EdgeKind::Instantiates { type_args, is_partial } => EdgeKind::Instantiates {
            type_args: on_type_args(remap, local_only, type_args),
            is_partial,
        },
        _ => kind,
    }
}

/// What a node entry becomes: every string that it names is renumbered.
pub open spec fn on_entry(remap: Map<u32, u32>, local_only: bool, entry: NodeEntry) -> NodeEntry {
    NodeEntry {
        name: on_id(remap, local_only, entry.name),
        signature: on_option(remap, local_only, entry.signature),
        doc: on_option(remap, local_only, entry.doc),
        qualified_name: on_option(remap, local_only, entry.qualified_name),
        visibility: on_option(remap, local_only, entry.visibility),
        ..entry
    }
}

/// The identity in an option.
pub open spec fn option_ids(id: Option<StringId>) -> Seq<StringId> {
    match id {
        Some(i) => seq![i],
        None => Seq::empty(),
    }
}

/// The identity in a protocol.
pub open spec fn protocol_ids(p: MqProtocol) -> Seq<StringId> {
    match p {
        MqProtocol::Other(s) => seq![s],
        _ => Seq::empty(),
    }
}

/// The identities in type arguments.
pub open spec fn type_arg_ids(args: TypeArgs) -> Seq<StringId> {
    Seq::new(args.seq().len(), |i: int| args.seq()[i].name)
}

/// The strings that an edge kind names.
pub open spec fn kind_ids(kind: EdgeKind) -> Seq<StringId> {
    match kind {
        EdgeKind::Imports { alias, .. } => option_ids(alias),
        EdgeKind::Exports { alias, .. } => option_ids(alias),
        EdgeKind::TypeOf { name, .. } => option_ids(name),
        EdgeKind::TraitMethodBinding { trait_name, impl_type, .. } => seq![trait_name] + seq![impl_type],
        EdgeKind::HttpRequest { url, .. } => option_ids(url),
        EdgeKind::GrpcCall { service, method, .. } => seq![service] + seq![method],
        EdgeKind::DbQuery { table, .. } => option_ids(table),
        EdgeKind::TableRead { table_name, schema, .. } => seq![table_name] + option_ids(schema),
        EdgeKind::TableWrite { table_name, schema, .. } => seq![table_name] + option_ids(schema),
        EdgeKind::TriggeredBy { trigger_name, schema, .. } => seq![trigger_name] + option_ids(schema),
        EdgeKind::MessageQueue { protocol, topic, .. } => protocol_ids(protocol) + option_ids(topic),
        EdgeKind::WebSocket { event, .. } => option_ids(event),
        EdgeKind::GraphQLOperation { operation, .. } => seq![operation],
        EdgeKind::ProcessExec { command, .. } => seq![command],
        EdgeKind::FileIpc { path_pattern, .. } => option_ids(path_pattern),
        EdgeKind::ProtocolCall { protocol, metadata, .. } => seq![protocol] + option_ids(metadata),
        EdgeKind::Instantiates { type_args, .. } => type_arg_ids(type_args),
        _ => Seq::empty(),
    }
}

/// The strings that a node entry names.
pub open spec fn entry_ids(entry: NodeEntry) -> Seq<StringId> {
    seq![entry.name] + option_ids(entry.signature) + option_ids(entry.doc) + option_ids(
        entry.qualified_name,
    ) + option_ids(entry.visibility)
}

/// Every local identity among `ids` has a number.
pub open spec fn locals_mapped(remap: Map<u32, u32>, ids: Seq<StringId>) -> bool {
    forall|i: int|
        0 <= i < ids.len() && (#[trigger] ids[i]).local() ==> remap.dom().contains(ids[i].0)
}

fn map_id(id: StringId, remap: &StringRemap, local_only: bool) -> (r: StringId)
    ensures
        r == on_id(remap@, local_only, id),
{
    if local_only && !id.is_local() {
        id
    } else {
        match remap.get(&id) {
            Some(to) => to,
            None => id,
        }
    }
}

fn map_option(id: Option<StringId>, remap: &StringRemap, local_only: bool) -> (r: Option<StringId>)
    ensures
        r == on_option(remap@, local_only, id),
{
    match id {
        Some(i) => Some(map_id(i, remap, local_only)),
        None => None,
    }
}

fn map_protocol(p: MqProtocol, remap: &StringRemap, local_only: bool) -> (r: MqProtocol)
    ensures
        r == on_protocol(remap@, local_only, p),
{
    match p {
        MqProtocol::Other(s) => MqProtocol::Other(map_id(s, remap, local_only)),
        _ => p,
    }
}

fn map_type_args(args: &TypeArgs, remap: &StringRemap, local_only: bool) -> (r: TypeArgs)
    ensures
        r == on_type_args(remap@, local_only, *args),
    decreases *args,
{
    match args {
        TypeArgs::Nil => TypeArgs::Nil,
        TypeArgs::Cons(head, tail) => TypeArgs::Cons(
            TypeArg { name: map_id(head.name, remap, local_only), inferred: head.inferred },
            Box::new(map_type_args(&**tail, remap, local_only)),
        ),
    }
}

/// The edge kind with every string that it names renumbered. Every kind is spelled out,
/// so a new one has to be sorted in here.
fn map_kind(kind: &EdgeKind, remap: &StringRemap, local_only: bool) -> (r: EdgeKind)
    ensures
        r == on_kind(remap@, local_only, *kind),
{
    match kind {
        EdgeKind::Imports { alias, is_wildcard } => EdgeKind::Imports {
            alias: map_option(*alias, remap, local_only),
            is_wildcard: *is_wildcard,
        },
        EdgeKind::Exports { kind, alias } => EdgeKind::Exports {
            kind: *kind,
            alias: map_option(*alias, remap, local_only),
        },
        EdgeKind::TypeOf { context, index, name } => EdgeKind::TypeOf {
            context: *context,
            index: *index,
            name: map_option(*name, remap, local_only),
        },
        EdgeKind::TraitMethodBinding { trait_name, impl_type, is_ambiguous } => EdgeKind::TraitMethodBinding {
            trait_name: map_id(*trait_name, remap, local_only),
            impl_type: map_id(*impl_type, remap, local_only),
            is_ambiguous: *is_ambiguous,
        },
        EdgeKind::HttpRequest { method, url } => EdgeKind::HttpRequest {
            method: *method,
            url: map_option(*url, remap, local_only),
        },
        EdgeKind::GrpcCall { service, method } => EdgeKind::GrpcCall {
            service: map_id(*service, remap, local_only),
            method: map_id(*method, remap, local_only),
        },
        EdgeKind::DbQuery { query_type, table } => EdgeKind::DbQuery {
            query_type: *query_type,
            table: map_option(*table, remap, local_only),
        },
        EdgeKind::TableRead { table_name, schema } => EdgeKind::TableRead {
            table_name: map_id(*table_name, remap, local_only),
            schema: map_option(*schema, remap, local_only),
        },
        EdgeKind::TableWrite { table_name, schema, operation } => EdgeKind::TableWrite {
            table_name: map_id(*table_name, remap, local_only),
            schema: map_option(*schema, remap, local_only),
            operation: *operation,
        },
        EdgeKind::TriggeredBy { trigger_name, schema } => EdgeKind::TriggeredBy {
            trigger_name: map_id(*trigger_name, remap, local_only),
            schema: map_option(*schema, remap, local_only),
        },
        EdgeKind::MessageQueue { protocol, topic } => EdgeKind::MessageQueue {
            protocol: map_protocol(*protocol, remap, local_only),
            topic: map_option(*topic, remap, local_only),
        },
        EdgeKind::WebSocket { event } => EdgeKind::WebSocket {
            event: map_option(*event, remap, local_only),
        },
        EdgeKind::GraphQLOperation { operation } => EdgeKind::GraphQLOperation {
            operation: map_id(*operation, remap, local_only),
        },
        EdgeKind::ProcessExec { command } => EdgeKind::ProcessExec {
            command: map_id(*command, remap, local_only),
        },
        EdgeKind::FileIpc { path_pattern } => EdgeKind::FileIpc {
            path_pattern: map_option(*path_pattern, remap, local_only),
        },
        EdgeKind::ProtocolCall { protocol, metadata } => EdgeKind::ProtocolCall {
            protocol: map_id(*protocol, remap, local_only),
            metadata: map_option(*metadata, remap, local_only),
        },
        EdgeKind::Instantiates { type_args, is_partial } => EdgeKind::Instantiates {
            type_args: map_type_args(type_args, remap, local_only),
            is_partial: *is_partial,
        },
        EdgeKind::Defines
        | EdgeKind::Contains
        | EdgeKind::Calls { .. }
        | EdgeKind::References
        | EdgeKind::Inherits
        | EdgeKind::Implements
        | EdgeKind::LifetimeConstraint { .. }
        | EdgeKind::MacroExpansion { .. }
        | EdgeKind::FfiCall { .. }
        | EdgeKind::WebAssemblyCall
        | EdgeKind::GenericBound
        | EdgeKind::AnnotatedWith
        | EdgeKind::AnnotationParam
        | EdgeKind::LambdaCaptures
        | EdgeKind::ModuleExports
        | EdgeKind::ModuleRequires
        | EdgeKind::ModuleOpens
        | EdgeKind::ModuleProvides
        | EdgeKind::TypeArgument
        | EdgeKind::ExtensionReceiver
        | EdgeKind::CompanionOf
        | EdgeKind::SealedPermit
        | EdgeKind::Wraps { .. }
        | EdgeKind::ChannelPeer { .. } => kind.clone(),
    }
}

/// Gives a local string its number in the graph.
pub fn remap_required_local(id: &mut StringId, remap: &StringRemap)
    requires
        old(id).local() ==> remap@.dom().contains(old(id).0),
    ensures
        *final(id) == on_id(remap@, true, *old(id)),
{
    *id = map_id(*id, remap, true);
}

/// Gives an optional local string its number in the graph.
pub fn remap_option_local(opt: &mut Option<StringId>, remap: &StringRemap)
    requires
        locals_mapped(remap@, option_ids(*old(opt))),
    ensures
        *final(opt) == on_option(remap@, true, *old(opt)),
{
    *opt = map_option(*opt, remap, true);
}

/// Gives the local strings of a node entry their numbers in the graph.
pub fn remap_node_entry_string_ids(entry: &mut NodeEntry, remap: &StringRemap)
    requires
        locals_mapped(remap@, entry_ids(*old(entry))),
    ensures
        *final(entry) == on_entry(remap@, true, *old(entry)),
{
    entry.name = map_id(entry.name, remap, true);
    entry.signature = map_option(entry.signature, remap, true);
    entry.doc = map_option(entry.doc, remap, true);
    entry.qualified_name = map_option(entry.qualified_name, remap, true);
    entry.visibility = map_option(entry.visibility, remap, true);
}

/// Gives the local strings of an edge kind their numbers in the graph.
pub fn remap_edge_kind_local_string_ids(kind: &mut EdgeKind, remap: &StringRemap)
    requires
        locals_mapped(remap@, kind_ids(*old(kind))),
    ensures
        *final(kind) == on_kind(remap@, true, *old(kind)),
{
    *kind = map_kind(&*kind, remap, true);
}

/// Renumbers a string, where the table says so.
pub fn remap_string_id(id: &mut StringId, remap: &StringRemap)
    ensures
        *final(id) == renumbered(remap@, *old(id)),
{
    *id = map_id(*id, remap, false);
}

/// Renumbers an optional string, where the table says so.
pub fn remap_option_string_id(id: &mut Option<StringId>, remap: &StringRemap)
    ensures
        *final(id) == renumbered_option(remap@, *old(id)),
{
    *id = map_option(*id, remap, false);
}

/// Renumbers every string that an edge kind names, where the table says so.
pub fn remap_edge_kind_string_ids(kind: &mut EdgeKind, remap: &StringRemap)
    ensures
        *final(kind) == on_kind(remap@, false, *old(kind)),
{
    *kind = map_kind(&*kind, remap, false);
}

/// Renumbers every string that a node entry names, where the table says so.
pub fn remap_node_entry_global(entry: &mut NodeEntry, remap: &StringRemap)
    ensures
        *final(entry) == on_entry(remap@, false, *old(entry)),
{
    entry.name = map_id(entry.name, remap, false);
    entry.signature = map_option(entry.signature, remap, false);
    entry.doc = map_option(entry.doc, remap, false);
    entry.qualified_name = map_option(entry.qualified_name, remap, false);
    entry.visibility = map_option(entry.visibility, remap, false);
}

proof fn lemma_type_args_identity(args: TypeArgs, local_only: bool)
    ensures
        on_type_args(Map::empty(), local_only, args) == args,
    decreases args,
{
    match args {
        TypeArgs::Nil => {},
        TypeArgs::Cons(head, tail) => {
            lemma_type_args_identity(*tail, local_only);
        },
    }
}

proof fn lemma_type_args_ids(remap: Map<u32, u32>, local_only: bool, args: TypeArgs)
    ensures
        type_arg_ids(on_type_args(remap, local_only, args)).len() == type_arg_ids(args).len(),
        forall|i: int|
            0 <= i < type_arg_ids(args).len() ==> #[trigger] type_arg_ids(
                on_type_args(remap, local_only, args),
            )[i] == on_id(remap, local_only, type_arg_ids(args)[i]),
    decreases args,
{
    match args {
        TypeArgs::Nil => {},
        TypeArgs::Cons(head, tail) => {
            lemma_type_args_ids(remap, local_only, *tail);
            let out = on_type_args(remap, local_only, args);
            let rest = on_type_args(remap, local_only, *tail);
            assert forall|i: int| 0 <= i < type_arg_ids(args).len() implies #[trigger] type_arg_ids(
                out,
            )[i] == on_id(remap, local_only, type_arg_ids(args)[i]) by {
                if i > 0 {
                    assert(type_arg_ids(rest)[i - 1] == on_id(
                        remap,
                        local_only,
                        type_arg_ids(*tail)[i - 1],
                    ));
                }
            }
        },
    }
}

/// An empty table changes no edge kind and no node entry.
pub proof fn law_empty_remap_is_identity(kind: EdgeKind, entry: NodeEntry, local_only: bool)
    ensures
        on_kind(Map::empty(), local_only, kind) == kind,
        on_entry(Map::empty(), local_only, entry) == entry,
{
    match kind {
        EdgeKind::Instantiates { type_args, .. } => {
            lemma_type_args_identity(type_args, local_only);
        },
        _ => {},
    }
}

/// Every string that a kind names is renumbered, none is forgotten and none is added.
pub proof fn law_remap_reaches_every_string(remap: Map<u32, u32>, local_only: bool, kind: EdgeKind)
    ensures
        kind_ids(on_kind(remap, local_only, kind)).len() == kind_ids(kind).len(),
        forall|i: int|
            0 <= i < kind_ids(kind).len() ==> #[trigger] kind_ids(
                on_kind(remap, local_only, kind),
            )[i] == on_id(remap, local_only, kind_ids(kind)[i]),
{
    match kind {
        EdgeKind::Instantiates { type_args, .. } => {
            lemma_type_args_ids(remap, local_only, type_args);
        },
        _ => {},
    }
}

/// Once every local string has a number in the graph, nothing local is left in an edge
/// kind.
pub proof fn law_local_remap_leaves_no_local(remap: Map<u32, u32>, kind: EdgeKind)
    requires
        locals_mapped(remap, kind_ids(kind)),
        forall|k: u32| remap.dom().contains(k) ==> !StringId(#[trigger] remap[k]).local(),
    ensures
        forall|i: int|
            0 <= i < kind_ids(kind).len() ==> !(#[trigger] kind_ids(
                on_kind(remap, true, kind),
            )[i]).local(),
{
    law_remap_reaches_every_string(remap, true, kind);
}

} // verus!
