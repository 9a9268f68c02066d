//! Which foreign-function declarations are linked to which functions.
use vstd::prelude::*;

use crate::arena::live;
use crate::fields::{joined, law_fields_undo_joined, lemma_non_empty_keeps_all};
use crate::files::{files_of_language, FileView};
use crate::graph::GraphView;
use crate::ids::{FileId, NodeId};
use crate::indices::{lemma_file_rows, lemma_kind_rows, nodes_of_file, nodes_of_kind};
use crate::kinds::{EdgeKind, FfiConvention, Language, NodeKind};
use crate::pass4_cross::{definitions, outside, Definition};
use crate::pass5_cross_language::ffi::{
    after_last, all_declarations, all_ffi_edges, c_functions, convention_named, declarations,
    dotted, ffi_edges, ffi_edges_of, ffi_name, foreign_matches, foreign_rest, implementations,
    java_method, java_qualified, java_segments, jni_name, node_name, with_function_files,
    with_functions, DeclarationView,
};
use crate::pass5_cross_language::http_laws::{
    called, gained_edge, lemma_called, lemma_gained, lemma_sorts,
};
use crate::pass5_cross_language::{cross_language_edges, languages_linked};
use crate::text::{
    contains_text, find_text, lemma_find_from, occurs_at, rfind_from, rfind_text, without_prefix,
};

verus! {

/// `text` stands for the calling convention; what stands for no other stands for C.
pub open spec fn stands_for(text: Seq<char>, convention: FfiConvention) -> bool {
    match convention {
        FfiConvention::Cdecl => text == "cdecl"@,
        FfiConvention::Stdcall => text == "stdcall"@,
        FfiConvention::Fastcall => text == "fastcall"@,
        FfiConvention::System => text == "system"@,
        FfiConvention::C => text != "cdecl"@ && text != "stdcall"@ && text != "fastcall"@ && text
            != "system"@,
    }
}

/// `qn` is `extern::`, the text of a convention, `::` and `name`.
pub open spec fn extern_name(
    qn: Seq<char>,
    text: Seq<char>,
    name: Seq<char>,
    convention: FfiConvention,
) -> bool {
    &&& qn == "extern::"@ + text + "::"@ + name
    &&& stands_for(text, convention)
    &&& forall|j: int| 0 <= j < text.len() ==> !occurs_at(text + "::"@ + name, "::"@, j)
}

/// `qn` declares the foreign function `name` with this calling convention.
pub open spec fn foreign(qn: Seq<char>, name: Seq<char>, convention: FfiConvention) -> bool {
    &&& name.len() > 0
    &&& (exists|text: Seq<char>| #[trigger] extern_name(qn, text, name, convention)) || (convention
        == FfiConvention::C && (qn == "C."@ + name || qn == "C::"@ + name || qn == "native::jni::"@
        + name || qn == "native::ctypes::"@ + name || qn == "native::cffi::"@ + name || qn
        == "native::ffi::"@ + name || qn == "native::panama::"@ + name))
}

proof fn lemma_prefixed(qn: Seq<char>, pat: Seq<char>, name: Seq<char>)
    ensures
        qn == pat + name <==> without_prefix(qn, pat) == Some(name),
{
    if qn == pat + name {
        assert(qn.subrange(0, pat.len() as int) =~= pat);
        assert(qn.subrange(pat.len() as int, qn.len() as int) =~= name);
    }
    if without_prefix(qn, pat) == Some(name) {
        assert(qn =~= qn.subrange(0, pat.len() as int) + name);
    }
}

/// No two markers can stand at the start of one name.
proof fn lemma_markers_apart(qn: Seq<char>)
    ensures
        without_prefix(qn, "extern::"@) is Some ==> foreign_rest(qn) is None,
        forall|name: Seq<char>|
            foreign_rest(qn) == Some(name) <==> (#[trigger] ("C."@ + name) == qn || qn == "C::"@
                + name || qn == "native::jni::"@ + name || qn == "native::ctypes::"@ + name || qn
                == "native::cffi::"@ + name || qn == "native::ffi::"@ + name || qn
                == "native::panama::"@ + name),
{
    reveal_strlit("extern::");
    reveal_strlit("C.");
    reveal_strlit("C::");
    reveal_strlit("native::jni::");
    reveal_strlit("native::ctypes::");
    reveal_strlit("native::cffi::");
    reveal_strlit("native::ffi::");
    reveal_strlit("native::panama::");
    let a = "extern::"@;
    let b = "C."@;
    let c = "C::"@;
    let d = "native::jni::"@;
    let e = "native::ctypes::"@;
    let f = "native::cffi::"@;
    let h = "native::ffi::"@;
    let p = "native::panama::"@;
    if occurs_at(qn, a, 0) {
        assert(qn.subrange(0, 8)[0] == a[0]);
        assert(qn[0] == 'e');
    }
    if occurs_at(qn, b, 0) {
        assert(qn.subrange(0, 2)[0] == b[0] && qn.subrange(0, 2)[1] == b[1]);
        assert(qn[0] == 'C' && qn[1] == '.');
    }
    if occurs_at(qn, c, 0) {
        assert(qn.subrange(0, 3)[0] == c[0] && qn.subrange(0, 3)[1] == c[1]);
        assert(qn[0] == 'C' && qn[1] == ':');
    }
    if occurs_at(qn, d, 0) {
        assert(qn.subrange(0, 13)[0] == d[0] && qn.subrange(0, 13)[8] == d[8]);
        assert(qn[0] == 'n' && qn[8] == 'j');
    }
    if occurs_at(qn, e, 0) {
        assert(qn.subrange(0, 16)[0] == e[0] && qn.subrange(0, 16)[8] == e[8]
            && qn.subrange(0, 16)[9] == e[9]);
        assert(qn[0] == 'n' && qn[8] == 'c' && qn[9] == 't');
    }
    if occurs_at(qn, f, 0) {
        assert(qn.subrange(0, 14)[0] == f[0] && qn.subrange(0, 14)[8] == f[8]
            && qn.subrange(0, 14)[9] == f[9]);
        assert(qn[0] == 'n' && qn[8] == 'c' && qn[9] == 'f');
    }
    if occurs_at(qn, h, 0) {
        assert(qn.subrange(0, 13)[0] == h[0] && qn.subrange(0, 13)[8] == h[8]);
        assert(qn[0] == 'n' && qn[8] == 'f');
    }
    if occurs_at(qn, p, 0) {
        assert(qn.subrange(0, 16)[0] == p[0] && qn.subrange(0, 16)[8] == p[8]);
        assert(qn[0] == 'n' && qn[8] == 'p');
    }
    assert forall|name: Seq<char>|
        foreign_rest(qn) == Some(name) <==> (#[trigger] ("C."@ + name) == qn || qn == "C::"@ + name
            || qn == "native::jni::"@ + name || qn == "native::ctypes::"@ + name || qn
            == "native::cffi::"@ + name || qn == "native::ffi::"@ + name || qn
            == "native::panama::"@ + name) by {
        lemma_prefixed(qn, b, name);
        lemma_prefixed(qn, c, name);
        lemma_prefixed(qn, d, name);
        lemma_prefixed(qn, e, name);
        lemma_prefixed(qn, f, name);
        lemma_prefixed(qn, h, name);
        lemma_prefixed(qn, p, name);
    }
}

proof fn lemma_convention(text: Seq<char>, convention: FfiConvention)
    ensures
        stands_for(text, convention) <==> convention_named(text) == convention,
{
    reveal_strlit("cdecl");
    reveal_strlit("stdcall");
    reveal_strlit("fastcall");
    reveal_strlit("system");
    assert("cdecl"@.len() == 5);
    assert("stdcall"@.len() == 7);
    assert("fastcall"@.len() == 8);
    assert("system"@.len() == 6);
}

/// A name declares a foreign function exactly when it is `extern::`, a calling convention,
/// `::` and the name of the function, or the name of the function behind one of the markers
/// of a C import, of a native method or of a foreign-function library.
pub proof fn law_foreign_names_are_marked(
    qn: Seq<char>,
    name: Seq<char>,
    convention: FfiConvention,
)
    ensures
        ffi_name(qn) == Some((name, convention)) <==> foreign(qn, name, convention),
{
    reveal_strlit("extern::");
    reveal_strlit("::");
    let marker = "extern::"@;
    lemma_markers_apart(qn);
    assert(("C."@ + name) == ("C."@ + name));
    match without_prefix(qn, marker) {
        Some(rest) => {
            lemma_find_from(rest, "::"@, 0);
            assert(qn =~= marker + rest) by {
                assert(qn.subrange(0, 8) == marker);
            }
            if foreign(qn, name, convention) {
                let text = choose|text: Seq<char>| #[trigger]
                    extern_name(qn, text, name, convention);
                let tail = text + "::"@ + name;
                assert(qn =~= marker + tail);
                assert(rest =~= tail) by {
                    lemma_prefixed(qn, marker, tail);
                }
                assert(tail.subrange(text.len() as int, text.len() as int + 2) =~= "::"@);
                assert(occurs_at(rest, "::"@, text.len() as int));
                let i = find_text(rest, "::"@)->0;
                assert(i == text.len());
                assert(rest.subrange(0, i) =~= text);
                assert(rest.subrange(i + 2, rest.len() as int) =~= name);
                lemma_convention(text, convention);
            }
            if ffi_name(qn) == Some((name, convention)) {
                let i = find_text(rest, "::"@)->0;
                let text = rest.subrange(0, i);
                assert(rest =~= text + "::"@ + name) by {
                    assert(rest.subrange(i, i + 2) == "::"@);
                }
                assert(qn =~= marker + text + "::"@ + name);
                lemma_convention(text, convention);
                assert(extern_name(qn, text, name, convention));
            }
        },
        None => {
            if exists|text: Seq<char>| #[trigger] extern_name(qn, text, name, convention) {
                let text = choose|text: Seq<char>| #[trigger]
                    extern_name(qn, text, name, convention);
                assert(qn =~= marker + (text + "::"@ + name));
                lemma_prefixed(qn, marker, text + "::"@ + name);
            }
        },
    }
}

/// `last` is the last segment of `name`.
pub open spec fn ends_in(name: Seq<char>, last: Seq<char>) -> bool {
    ||| last == name && !contains_text(name, "::"@)
    ||| exists|p: int| #[trigger]
        occurs_at(name, "::"@, p) && last == name.subrange(p + 2, name.len() as int) && (forall|
            j: int,
        |
            p < j ==> !occurs_at(name, "::"@, j))
}

proof fn lemma_rfind_last(s: Seq<char>, sep: Seq<char>, i: int)
    ensures
        rfind_from(s, sep, i) matches Some(k) ==> k <= i && occurs_at(s, sep, k) && forall|j: int|
            k < j <= i ==> !occurs_at(s, sep, j),
        rfind_from(s, sep, i) is None ==> forall|j: int| j <= i ==> !occurs_at(s, sep, j),
    decreases i + 1,
{
    if i >= 0 && !occurs_at(s, sep, i) {
        lemma_rfind_last(s, sep, i - 1);
    }
}

proof fn lemma_ends_in(name: Seq<char>, last: Seq<char>)
    ensures
        ends_in(name, last) <==> after_last(name, "::"@) == last,
{
    reveal_strlit("::");
    lemma_rfind_last(name, "::"@, name.len() as int);
    match rfind_text(name, "::"@) {
        Some(k) => {
            assert(occurs_at(name, "::"@, k));
            if ends_in(name, last) {
                let p = choose|p: int| #[trigger]
                    occurs_at(name, "::"@, p) && last == name.subrange(p + 2, name.len() as int)
                        && (forall|j: int| p < j ==> !occurs_at(name, "::"@, j));
                assert(p == k);
            }
        },
        None => {
            if contains_text(name, "::"@) {
                let j = choose|j: int| occurs_at(name, "::"@, j);
                assert(j <= name.len());
            }
        },
    }
}

/// `node` declares the foreign function `name`, in `file`.
pub open spec fn declares(
    g: GraphView,
    node: NodeId,
    name: Seq<char>,
    convention: FfiConvention,
    file: FileId,
) -> bool {
    &&& exists|k: int|
        0 <= k < g.indices.len() && (#[trigger] g.indices[k]).kind == NodeKind::Function
            && g.indices[k].node == node
    &&& live(g.nodes, node) is Some
    &&& live(g.nodes, node)->0.file == file
    &&& exists|qn: Seq<char>| #[trigger]
        called(g, live(g.nodes, node)->0, qn) && foreign(qn, name, convention)
}

/// `node` is a function of the C or C++ file `file`, and `last` is the last segment of its
/// name.
pub open spec fn provides(g: GraphView, node: NodeId, last: Seq<char>, file: FileId) -> bool {
    &&& file.0 < g.files.files.len()
    &&& g.files.files[file.0 as int].language == Some(Language::C) || g.files.files[file.0 as int].language
        == Some(Language::Cpp)
    &&& exists|k: int|
        0 <= k < g.indices.len() && (#[trigger] g.indices[k]).file == file && g.indices[k].node
            == node
    &&& live(g.nodes, node) is Some
    &&& live(g.nodes, node)->0.kind == NodeKind::Function
    &&& exists|qn: Seq<char>| #[trigger]
        called(g, live(g.nodes, node)->0, qn) && ends_in(qn, last)
}

/// Some function outside of `file` goes by `last`.
pub open spec fn provided(g: GraphView, last: Seq<char>, file: FileId) -> bool {
    exists|node: NodeId, f: FileId| #[trigger] provides(g, node, last, f) && f != file
}

/// `node` is a function whose name ends in `key`.
spec fn named_function(g: GraphView, node: NodeId, key: Seq<char>) -> bool {
    &&& node_name(g, node) is Some
    &&& live(g.nodes, node)->0.kind == NodeKind::Function
    &&& after_last(node_name(g, node)->0, "::"@) == key
}

proof fn lemma_functions(
    g: GraphView,
    m: Map<Seq<char>, Seq<Definition>>,
    nodes: Seq<NodeId>,
    file: FileId,
    n: int,
    key: Seq<char>,
    d: Definition,
)
    requires
        0 <= n <= nodes.len(),
    ensures
        definitions(with_functions(g, m, nodes, file, n), key).contains(d) <==> (definitions(
            m,
            key,
        ).contains(d) || (d.0 == file && nodes.take(n).contains(d.1) && named_function(
            g,
            d.1,
            key,
        ))),
    decreases n,
{
    if n > 0 {
        lemma_functions(g, m, nodes, file, n - 1, key, d);
        let node = nodes[n - 1];
        let before = with_functions(g, m, nodes, file, n - 1);
        let few = nodes.take(n - 1);
        let more = nodes.take(n);
        assert(more =~= few.push(node));
        assert(more.contains(d.1) <==> few.contains(d.1) || d.1 == node) by {
            if few.contains(d.1) {
                assert(more[few.index_of(d.1)] == d.1);
            }
            assert(more[n - 1] == node);
            if more.contains(d.1) && d.1 != node {
                assert(few[more.index_of(d.1)] == d.1);
            }
        }
        if named_function(g, node, key) {
            let old = definitions(before, key);
            let now = old.push((file, node));
            assert(definitions(with_functions(g, m, nodes, file, n), key) == now);
            assert(now[old.len() as int] == (file, node));
            if old.contains(d) {
                assert(now[old.index_of(d)] == d);
            }
            if now.contains(d) && d != (file, node) {
                assert(old[now.index_of(d)] == d);
            }
        }
    } else {
        assert(nodes.take(0) =~= Seq::empty());
    }
}

proof fn lemma_function_files(
    g: GraphView,
    m: Map<Seq<char>, Seq<Definition>>,
    files: Seq<FileId>,
    n: int,
    key: Seq<char>,
    d: Definition,
)
    requires
        0 <= n <= files.len(),
    ensures
        definitions(with_function_files(g, m, files, n), key).contains(d) <==> (definitions(
            m,
            key,
        ).contains(d) || (files.take(n).contains(d.0) && nodes_of_file(
            g.indices,
            d.0,
            g.indices.len() as int,
        ).contains(d.1) && named_function(g, d.1, key))),
    decreases n,
{
    if n > 0 {
        lemma_function_files(g, m, files, n - 1, key, d);
        let file = files[n - 1];
        let nodes = nodes_of_file(g.indices, file, g.indices.len() as int);
        let before = with_function_files(g, m, files, n - 1);
        lemma_functions(g, before, nodes, file, nodes.len() as int, key, d);
        assert(nodes.take(nodes.len() as int) =~= nodes);
        let few = files.take(n - 1);
        let more = files.take(n);
        assert(more =~= few.push(file));
        assert(more.contains(d.0) <==> few.contains(d.0) || d.0 == file) by {
            if few.contains(d.0) {
                assert(more[few.index_of(d.0)] == d.0);
            }
            assert(more[n - 1] == file);
            if more.contains(d.0) && d.0 != file {
                assert(few[more.index_of(d.0)] == d.0);
            }
        }
    } else {
        assert(files.take(0) =~= Seq::empty());
    }
}

proof fn lemma_language_files(files: Seq<FileView>, language: Language, n: int, file: FileId)
    requires
        0 <= n <= files.len() <= 0x1_0000_0000,
    ensures
        files_of_language(files, language, n).contains(file) <==> (file.0 < n
            && files[file.0 as int].language == Some(language)),
    decreases n,
{
    if n > 0 {
        lemma_language_files(files, language, n - 1, file);
        let before = files_of_language(files, language, n - 1);
        let after = files_of_language(files, language, n);
        let last = FileId((n - 1) as u32);
        assert(last.0 == n - 1);
        if before.contains(file) {
            assert(after[before.index_of(file)] == file);
        }
        if after.contains(file) && !before.contains(file) {
            let i = after.index_of(file);
            if i < before.len() {
                assert(before[i] == file);
            }
            assert(file == last);
        }
        if file.0 == n - 1 && files[n - 1].language == Some(language) {
            assert(file == last);
            assert(after[before.len() as int] == file);
        }
    }
}

proof fn lemma_c_functions(g: GraphView, key: Seq<char>, d: Definition)
    requires
        g.files.files.len() <= 0x1_0000_0000,
    ensures
        definitions(c_functions(g), key).contains(d) <==> provides(g, d.1, key, d.0),
{
    let files = g.files.files;
    let c = files_of_language(files, Language::C, files.len() as int);
    let cpp = files_of_language(files, Language::Cpp, files.len() as int);
    let none = Map::<Seq<char>, Seq<Definition>>::empty();
    let first = with_function_files(g, none, c, c.len() as int);
    lemma_function_files(g, none, c, c.len() as int, key, d);
    lemma_function_files(g, first, cpp, cpp.len() as int, key, d);
    lemma_language_files(files, Language::C, files.len() as int, d.0);
    lemma_language_files(files, Language::Cpp, files.len() as int, d.0);
    assert(c.take(c.len() as int) =~= c);
    assert(cpp.take(cpp.len() as int) =~= cpp);
    assert(!definitions(none, key).contains(d));
    lemma_file_rows(g.indices, d.0, g.indices.len() as int, d.1);
    if live(g.nodes, d.1) is Some {
        let e = live(g.nodes, d.1)->0;
        if named_function(g, d.1, key) {
            let qn = node_name(g, d.1)->0;
            lemma_called(g, d.1, qn);
            lemma_ends_in(qn, key);
            assert(called(g, e, qn) && ends_in(qn, key));
        }
        if exists|qn: Seq<char>| #[trigger] called(g, e, qn) && ends_in(qn, key) {
            let qn = choose|qn: Seq<char>| #[trigger] called(g, e, qn) && ends_in(qn, key);
            lemma_called(g, d.1, qn);
            lemma_ends_in(qn, key);
        }
    }
}

proof fn lemma_outside(defs: Seq<Definition>, file: FileId, n: int, d: Definition)
    requires
        0 <= n <= defs.len(),
    ensures
        outside(defs, file, n).contains(d) <==> defs.take(n).contains(d) && d.0 != file,
    decreases n,
{
    if n > 0 {
        lemma_outside(defs, file, n - 1, d);
        let before = outside(defs, file, n - 1);
        let after = outside(defs, file, n);
        let few = defs.take(n - 1);
        let more = defs.take(n);
        if few.contains(d) {
            assert(more[few.index_of(d)] == d);
        }
        if more.contains(d) && !few.contains(d) {
            let i = more.index_of(d);
            if i < n - 1 {
                assert(few[i] == d);
            }
            assert(defs[n - 1] == d);
        }
        assert(more[n - 1] == defs[n - 1]);
        if before.contains(d) {
            assert(after[before.index_of(d)] == d);
        }
        if after.contains(d) && !before.contains(d) {
            let i = after.index_of(d);
            if i < before.len() {
                assert(before[i] == d);
            }
        }
        if d == defs[n - 1] && d.0 != file {
            assert(after[before.len() as int] == d);
        }
    } else {
        assert(defs.take(0) =~= Seq::empty());
    }
}

proof fn lemma_matches(g: GraphView, key: Seq<char>, file: FileId, d: Definition)
    requires
        g.files.files.len() <= 0x1_0000_0000,
    ensures
        foreign_matches(c_functions(g), key, file).contains(d) <==> provides(g, d.1, key, d.0)
            && d.0 != file,
{
    let defs = definitions(c_functions(g), key);
    lemma_c_functions(g, key, d);
    lemma_outside(defs, file, defs.len() as int, d);
    assert(defs.take(defs.len() as int) =~= defs);
}

proof fn lemma_provided(g: GraphView, key: Seq<char>, file: FileId)
    requires
        g.files.files.len() <= 0x1_0000_0000,
    ensures
        foreign_matches(c_functions(g), key, file).len() > 0 <==> provided(g, key, file),
{
    let found = foreign_matches(c_functions(g), key, file);
    if found.len() > 0 {
        lemma_matches(g, key, file, found[0]);
        assert(found.contains(found[0]));
        assert(provides(g, found[0].1, key, found[0].0));
    }
    if provided(g, key, file) {
        let (node, f) = choose|node: NodeId, f: FileId| #[trigger]
            provides(g, node, key, f) && f != file;
        lemma_matches(g, key, file, (f, node));
    }
}

/// The function `target` of `file` implements a declaration of `name` in `declaring`: it
/// goes by that name; or, where no function does, by the name that the native Java method
/// has in C; or, where none does that either, by the last segment.
pub open spec fn implements_foreign(
    g: GraphView,
    name: Seq<char>,
    declaring: FileId,
    target: NodeId,
    file: FileId,
) -> bool {
    let native = java_qualified(name) && provided(g, jni_name(name), declaring);
    if provided(g, name, declaring) {
        provides(g, target, name, file)
    } else if native {
        provides(g, target, jni_name(name), file)
    } else {
        java_method(name) is Some && provides(g, target, java_method(name)->0, file)
    }
}

proof fn lemma_implementations(g: GraphView, d: DeclarationView, t: Definition)
    requires
        g.files.files.len() <= 0x1_0000_0000,
    ensures
        implementations(c_functions(g), d).contains(t) <==> implements_foreign(
            g,
            d.name,
            d.file,
            t.1,
            t.0,
        ) && t.0 != d.file,
{
    lemma_provided(g, d.name, d.file);
    lemma_provided(g, jni_name(d.name), d.file);
    lemma_matches(g, d.name, d.file, t);
    lemma_matches(g, jni_name(d.name), d.file, t);
    if java_method(d.name) is Some {
        lemma_matches(g, java_method(d.name)->0, d.file, t);
    }
}

proof fn lemma_declaration_of(g: GraphView, nodes: Seq<NodeId>, n: int, i: int)
    requires
        0 <= n <= nodes.len(),
        0 <= i < declarations(g, nodes, n).len(),
    ensures
        ({
            let d = declarations(g, nodes, n)[i];
            &&& nodes.contains(d.node)
            &&& node_name(g, d.node) is Some
            &&& ffi_name(node_name(g, d.node)->0) == Some((d.name, d.convention))
            &&& d.file == live(g.nodes, d.node)->0.file
        }),
    decreases n,
{
    if i < declarations(g, nodes, n - 1).len() {
        lemma_declaration_of(g, nodes, n - 1, i);
    } else {
        assert(nodes[n - 1] == declarations(g, nodes, n)[i].node);
    }
}

proof fn lemma_declaration_there(g: GraphView, nodes: Seq<NodeId>, n: int, k: int) -> (i: int)
    requires
        0 <= k < n <= nodes.len(),
        node_name(g, nodes[k]) is Some,
        ffi_name(node_name(g, nodes[k])->0) is Some,
    ensures
        0 <= i < declarations(g, nodes, n).len(),
        ({
            let d = declarations(g, nodes, n)[i];
            &&& d.node == nodes[k]
            &&& Some((d.name, d.convention)) == ffi_name(node_name(g, nodes[k])->0)
            &&& d.file == live(g.nodes, d.node)->0.file
        }),
    decreases n,
{
    if k < n - 1 {
        lemma_declaration_there(g, nodes, n - 1, k)
    } else {
        declarations(g, nodes, n - 1).len() as int
    }
}

proof fn lemma_ffi_edge(
    functions: Map<Seq<char>, Seq<Definition>>,
    decls: Seq<DeclarationView>,
    n: int,
    j: int,
) -> (k: (int, int))
    requires
        0 <= n <= decls.len(),
        0 <= j < ffi_edges(functions, decls, n).len(),
    ensures
        0 <= k.0 < n,
        0 <= k.1 < implementations(functions, decls[k.0]).len(),
        ffi_edges(functions, decls, n)[j] == ffi_edges_of(
            decls[k.0],
            implementations(functions, decls[k.0]),
        )[k.1],
    decreases n,
{
    let before = ffi_edges(functions, decls, n - 1);
    if j < before.len() {
        lemma_ffi_edge(functions, decls, n - 1, j)
    } else {
        (n - 1, j - before.len())
    }
}

proof fn lemma_ffi_edge_there(
    functions: Map<Seq<char>, Seq<Definition>>,
    decls: Seq<DeclarationView>,
    n: int,
    k: int,
    m: int,
) -> (j: int)
    requires
        0 <= k < n <= decls.len(),
        0 <= m < implementations(functions, decls[k]).len(),
    ensures
        0 <= j < ffi_edges(functions, decls, n).len(),
        ffi_edges(functions, decls, n)[j] == ffi_edges_of(
            decls[k],
            implementations(functions, decls[k]),
        )[m],
    decreases n,
{
    let before = ffi_edges(functions, decls, n - 1);
    if k < n - 1 {
        let j = lemma_ffi_edge_there(functions, decls, n - 1, k, m);
        assert(ffi_edges(functions, decls, n)[j] == before[j]);
        j
    } else {
        before.len() + m
    }
}

/// Every declaration of a foreign function is linked to every function that implements it
/// in another file.
pub proof fn law_declaration_is_linked_to_its_implementations(
    g: GraphView,
    node: NodeId,
    name: Seq<char>,
    convention: FfiConvention,
    file: FileId,
    target: NodeId,
    target_file: FileId,
)
    requires
        g.files.files.len() <= 0x1_0000_0000,
        declares(g, node, name, convention, file),
        implements_foreign(g, name, file, target, target_file),
        target_file != file,
    ensures
        gained_edge(
            g,
            languages_linked(g),
            node,
            target,
            EdgeKind::FfiCall { convention },
            file,
        ),
{
    let nodes = nodes_of_kind(g.indices, NodeKind::Function, g.indices.len() as int);
    let decls = all_declarations(g);
    let e = live(g.nodes, node)->0;
    let qn = choose|qn: Seq<char>| #[trigger] called(g, e, qn) && foreign(qn, name, convention);
    lemma_called(g, node, qn);
    law_foreign_names_are_marked(qn, name, convention);
    lemma_kind_rows(g.indices, NodeKind::Function, g.indices.len() as int, node);
    let i = lemma_declaration_there(g, nodes, nodes.len() as int, nodes.index_of(node));
    let d = decls[i];
    lemma_implementations(g, d, (target_file, target));
    let found = implementations(c_functions(g), d);
    let m = found.index_of((target_file, target));
    let j = lemma_ffi_edge_there(c_functions(g), decls, decls.len() as int, i, m);
    assert(cross_language_edges(g)[j] == all_ffi_edges(g)[j]);
    lemma_gained(g, node, target, EdgeKind::FfiCall { convention }, file);
}

/// In particular, a declaration is linked to every function of another C or C++ file whose
/// name ends in what it declares.
pub proof fn law_declaration_is_linked_to_its_namesakes(
    g: GraphView,
    node: NodeId,
    name: Seq<char>,
    convention: FfiConvention,
    file: FileId,
    target: NodeId,
    target_file: FileId,
)
    requires
        g.files.files.len() <= 0x1_0000_0000,
        declares(g, node, name, convention, file),
        provides(g, target, name, target_file),
        target_file != file,
    ensures
        gained_edge(
            g,
            languages_linked(g),
            node,
            target,
            EdgeKind::FfiCall { convention },
            file,
        ),
{
    law_declaration_is_linked_to_its_implementations(
        g,
        node,
        name,
        convention,
        file,
        target,
        target_file,
    );
}

/// Nothing else is linked as a foreign call: an edge that is added as one leads from a
/// declaration to a function that implements it in another file.
pub proof fn law_declaration_is_linked_to_nothing_else(
    g: GraphView,
    node: NodeId,
    target: NodeId,
    convention: FfiConvention,
    file: FileId,
)
    requires
        g.files.files.len() <= 0x1_0000_0000,
        gained_edge(
            g,
            languages_linked(g),
            node,
            target,
            EdgeKind::FfiCall { convention },
            file,
        ),
    ensures
        exists|name: Seq<char>, f: FileId|
            #![trigger declares(g, node, name, convention, file), implements_foreign(
                g,
                name,
                file,
                target,
                f,
            )]
            declares(g, node, name, convention, file) && implements_foreign(
                g,
                name,
                file,
                target,
                f,
            ) && f != file,
{
    let kind = EdgeKind::FfiCall { convention };
    let all = cross_language_edges(g);
    lemma_gained(g, node, target, kind, file);
    let j = choose|j: int|
        0 <= j < all.len() && (#[trigger] all[j]).source == node && all[j].target == target
            && all[j].kind == kind && all[j].file == file;
    lemma_sorts(g, j);
    let nodes = nodes_of_kind(g.indices, NodeKind::Function, g.indices.len() as int);
    let decls = all_declarations(g);
    let at = lemma_ffi_edge(c_functions(g), decls, decls.len() as int, j);
    let d = decls[at.0];
    let found = implementations(c_functions(g), d);
    let t = found[at.1];
    assert(found.contains(t));
    lemma_implementations(g, d, t);
    lemma_declaration_of(g, nodes, nodes.len() as int, at.0);
    lemma_kind_rows(g.indices, NodeKind::Function, g.indices.len() as int, node);
    let qn = node_name(g, node)->0;
    lemma_called(g, node, qn);
    law_foreign_names_are_marked(qn, d.name, convention);
    assert(called(g, live(g.nodes, node)->0, qn) && foreign(qn, d.name, convention));
    assert(declares(g, node, d.name, convention, file));
    assert(implements_foreign(g, d.name, file, target, t.0));
}

/// How many declarations are looked at does not depend on what is found for them: each
/// function that declares a foreign function counts once for every row it has.
pub proof fn law_declared_functions_are_scanned(g: GraphView, node: NodeId)
    ensures
        (exists|i: int| 0 <= i < all_declarations(g).len() && #[trigger] all_declarations(g)[i].node == node)
            <==> exists|name: Seq<char>, convention: FfiConvention, file: FileId| #[trigger]
            declares(g, node, name, convention, file),
{
    let nodes = nodes_of_kind(g.indices, NodeKind::Function, g.indices.len() as int);
    let decls = all_declarations(g);
    lemma_kind_rows(g.indices, NodeKind::Function, g.indices.len() as int, node);
    if exists|i: int| 0 <= i < decls.len() && #[trigger] decls[i].node == node {
        let i = choose|i: int| 0 <= i < decls.len() && #[trigger] decls[i].node == node;
        let d = decls[i];
        lemma_declaration_of(g, nodes, nodes.len() as int, i);
        let qn = node_name(g, node)->0;
        lemma_called(g, node, qn);
        law_foreign_names_are_marked(qn, d.name, d.convention);
        assert(called(g, live(g.nodes, node)->0, qn) && foreign(qn, d.name, d.convention));
        assert(declares(g, node, d.name, d.convention, d.file));
    }
    if exists|name: Seq<char>, convention: FfiConvention, file: FileId| #[trigger]
        declares(g, node, name, convention, file) {
        let (name, convention, file) = choose|
            name: Seq<char>,
            convention: FfiConvention,
            file: FileId,
        | #[trigger]
            declares(g, node, name, convention, file);
        let e = live(g.nodes, node)->0;
        let qn = choose|qn: Seq<char>| #[trigger] called(g, e, qn) && foreign(qn, name, convention);
        lemma_called(g, node, qn);
        law_foreign_names_are_marked(qn, name, convention);
        let i = lemma_declaration_there(g, nodes, nodes.len() as int, nodes.index_of(node));
        assert(decls[i].node == node);
    }
}

/// `s` is made of letters of a segment: none of them separates segments.
pub open spec fn one_segment(s: Seq<char>) -> bool {
    s.len() > 0 && !s.contains('.') && !s.contains(':')
}

/// The first `n` segments with `::` between them.
pub open spec fn with_colons(parts: Seq<Seq<char>>, n: int) -> Seq<char>
    decreases n,
{
    if n <= 0 {
        Seq::empty()
    } else if n == 1 {
        parts[0]
    } else {
        with_colons(parts, n - 1) + "::"@ + parts[n - 1]
    }
}

proof fn lemma_dotted_same(s: Seq<char>, i: int)
    requires
        0 <= i <= s.len(),
        !s.contains(':'),
    ensures
        dotted(s, i) == s.subrange(i, s.len() as int),
    decreases s.len() - i,
{
    if i < s.len() {
        lemma_dotted_same(s, i + 1);
        assert(s.contains(s[i]));
        assert(seq![s[i]] + s.subrange(i + 1, s.len() as int) =~= s.subrange(i, s.len() as int));
    } else {
        assert(s.subrange(i, s.len() as int) =~= Seq::empty());
    }
}

proof fn lemma_dotted_tail(a: Seq<char>, p: Seq<char>, s: Seq<char>, i: int)
    requires
        0 <= i,
        i <= s.len(),
        s == a + "::"@ + p,
        !p.contains(':'),
        i >= a.len() + 2,
    ensures
        dotted(s, i) == s.subrange(i, s.len() as int),
    decreases s.len() - i,
{
    reveal_strlit("::");
    if i < s.len() {
        lemma_dotted_tail(a, p, s, i + 1);
        assert(s[i] == p[i - a.len() - 2]);
        assert(p.contains(s[i]));
        assert(seq![s[i]] + s.subrange(i + 1, s.len() as int) =~= s.subrange(i, s.len() as int));
    } else {
        assert(s.subrange(i, s.len() as int) =~= Seq::empty());
    }
}

proof fn lemma_dotted_join(a: Seq<char>, p: Seq<char>, i: int)
    requires
        0 <= i <= a.len(),
        a.len() > 0,
        a[a.len() - 1] != ':',
        !p.contains(':'),
    ensures
        dotted(a + "::"@ + p, i) == dotted(a, i).push('.') + p,
    decreases a.len() - i,
{
    reveal_strlit("::");
    let s = a + "::"@ + p;
    if i == a.len() {
        lemma_dotted_tail(a, p, s, i + 2);
        assert(s[i] == ':' && s[i + 1] == ':');
        assert(s.subrange(i + 2, s.len() as int) =~= p);
        assert(dotted(a, i) =~= Seq::empty());
        assert(seq!['.'] + p =~= Seq::<char>::empty().push('.') + p);
    } else if i + 1 < a.len() && a[i] == ':' && a[i + 1] == ':' {
        lemma_dotted_join(a, p, i + 2);
        assert(s[i] == ':' && s[i + 1] == ':');
        assert(seq!['.'] + (dotted(a, i + 2).push('.') + p) =~= (seq!['.'] + dotted(
            a,
            i + 2,
        )).push('.') + p);
    } else {
        lemma_dotted_join(a, p, i + 1);
        assert(s[i] == a[i]);
        if i + 1 < a.len() {
            assert(s[i + 1] == a[i + 1]);
        }
        assert(seq![a[i]] + (dotted(a, i + 1).push('.') + p) =~= (seq![a[i]] + dotted(
            a,
            i + 1,
        )).push('.') + p);
    }
}

proof fn lemma_dotted_colons(parts: Seq<Seq<char>>, n: int)
    requires
        1 <= n <= parts.len(),
        forall|i: int| 0 <= i < parts.len() ==> one_segment(#[trigger] parts[i]),
    ensures
        with_colons(parts, n).len() > 0,
        with_colons(parts, n)[with_colons(parts, n).len() - 1] != ':',
        dotted(with_colons(parts, n), 0) == joined(parts, '.', n),
    decreases n,
{
    reveal_strlit("::");
    let last = parts[n - 1];
    assert(one_segment(parts[n - 1]));
    assert(last.contains(last[last.len() - 1]));
    if n > 1 {
        lemma_dotted_colons(parts, n - 1);
        let a = with_colons(parts, n - 1);
        lemma_dotted_join(a, last, 0);
    } else {
        lemma_dotted_same(last, 0);
        assert(last.subrange(0, last.len() as int) =~= last);
    }
}

proof fn lemma_no_colon(parts: Seq<Seq<char>>, n: int)
    requires
        0 <= n <= parts.len(),
        forall|i: int| 0 <= i < parts.len() ==> one_segment(#[trigger] parts[i]),
    ensures
        !joined(parts, '.', n).contains(':'),
    decreases n,
{
    if n > 1 {
        lemma_no_colon(parts, n - 1);
        let a = joined(parts, '.', n - 1);
        let s = joined(parts, '.', n);
        if s.contains(':') {
            let k = s.index_of(':');
            if k < a.len() {
                assert(a[k] == ':');
            } else if k > a.len() {
                assert(parts[n - 1][k - a.len() - 1] == ':');
                assert(one_segment(parts[n - 1]));
            }
        }
    } else if n == 1 {
        assert(one_segment(parts[0]));
    }
}

/// The C name of a native Java method is `Java_` and the segments of its name with
/// underscores between them, whether these stood between dots or between double colons.
pub proof fn law_native_method_has_a_c_name(parts: Seq<Seq<char>>)
    requires
        parts.len() > 0,
        forall|i: int| 0 <= i < parts.len() ==> one_segment(#[trigger] parts[i]),
    ensures
        jni_name(joined(parts, '.', parts.len() as int)) == "Java_"@ + joined(
            parts,
            '_',
            parts.len() as int,
        ),
        jni_name(with_colons(parts, parts.len() as int)) == "Java_"@ + joined(
            parts,
            '_',
            parts.len() as int,
        ),
{
    let n = parts.len() as int;
    let flat = joined(parts, '.', n);
    lemma_no_colon(parts, n);
    lemma_dotted_same(flat, 0);
    assert(flat.subrange(0, flat.len() as int) =~= flat);
    lemma_dotted_colons(parts, n);
    assert forall|i: int| 0 <= i < n implies !(#[trigger] parts[i]).contains('.') && parts[i].len()
        > 0 by {
        assert(one_segment(parts[i]));
    }
    law_fields_undo_joined(parts, '.', n);
    assert(parts.take(n) =~= parts);
    lemma_non_empty_keeps_all(parts, n);
    assert(java_segments(flat) == parts);
    assert(java_segments(with_colons(parts, n)) == parts);
}

/// A Java name holds a package or a class where a dot or a double colon stands in it; and
/// the method that it names is what stands behind the last of these.
pub proof fn law_native_method_is_the_last_segment(before: Seq<char>, method: Seq<char>)
    requires
        one_segment(method),
    ensures
        java_method(method) == Some(method),
        java_method(before + "."@ + method) == Some(method),
        java_method(before + "::"@ + method) == Some(method),
        !java_qualified(method),
        java_qualified(before + "."@ + method),
        java_qualified(before + "::"@ + method),
{
    reveal_strlit(".");
    reveal_strlit("::");
    let n = before.len() as int;
    let a = before + "."@ + method;
    let b = before + "::"@ + method;
    lemma_plain(method);
    assert(a.subrange(n, n + 1) =~= "."@);
    assert(occurs_at(a, "."@, n));
    assert(b.subrange(n, n + 2) =~= "::"@);
    assert(occurs_at(b, "::"@, n));
    lemma_rfind_last(a, "::"@, a.len() as int);
    let x = after_last(a, "::"@);
    let cut = a.len() - x.len();
    assert(0 <= cut <= n) by {
        if let Some(k) = rfind_text(a, "::"@) {
            assert(a.subrange(k, k + 2)[0] == ':' && a.subrange(k, k + 2)[1] == ':');
            assert(a[k + 1] == ':');
            if k + 1 >= n {
                if k + 1 > n {
                    assert(method[k + 1 - n - 1] == ':');
                    assert(method.contains(':'));
                }
            }
        }
    }
    assert(x =~= a.subrange(cut, a.len() as int));
    let m = n - cut;
    assert(x.subrange(m, m + 1) =~= "."@);
    lemma_rfind_last(x, "."@, x.len() as int);
    assert(occurs_at(x, "."@, m));
    let k = rfind_text(x, "."@)->0;
    if k > m {
        assert(x.subrange(k, k + 1)[0] == '.');
        assert(method[k - m - 1] == '.');
        assert(method.contains('.'));
    }
    assert(x.subrange(k + 1, x.len() as int) =~= method);
    lemma_rfind_last(b, "::"@, b.len() as int);
    let p = rfind_text(b, "::"@)->0;
    if p > n {
        assert(b.subrange(p, p + 2)[1] == ':');
        assert(method[p + 1 - n - 2] == ':');
        assert(method.contains(':'));
    }
    assert(b.subrange(p + 2, b.len() as int) =~= method);
}

proof fn lemma_plain(method: Seq<char>)
    requires
        one_segment(method),
    ensures
        after_last(method, "."@) == method,
        java_method(method) == Some(method),
        !java_qualified(method),
{
    reveal_strlit(".");
    reveal_strlit("::");
    assert forall|i: int| !occurs_at(method, "."@, i) by {
        if occurs_at(method, "."@, i) {
            assert(method.subrange(i, i + 1)[0] == '.');
            assert(method.contains(method[i]));
        }
    }
    assert forall|i: int| !occurs_at(method, "::"@, i) by {
        if occurs_at(method, "::"@, i) {
            assert(method.subrange(i, i + 2)[0] == ':');
            assert(method.contains(method[i]));
        }
    }
    lemma_rfind_last(method, "."@, method.len() as int);
    lemma_rfind_last(method, "::"@, method.len() as int);
}

} // verus!
