//! Which layer a project or a namespace belongs to, and which projects are ignored.

use vstd::prelude::*;

use crate::config::Layer;
use crate::search::{first_index, lemma_first_index, lemma_first_index_step};
use crate::text::{seq_ends_with, seq_has_char};

verus! {

/// Whether the Unix-shell glob `pattern` compiles and matches all of `name`
/// (case-sensitively, `*` and `?` crossing path separators).
pub uninterp spec fn glob_matches(pattern: Seq<char>, name: Seq<char>) -> bool;

/// `pattern` holds a glob metacharacter or a path separator.
pub open spec fn has_glob_meta(pattern: Seq<char>) -> bool {
    ||| seq_has_char(pattern, '*')
    ||| seq_has_char(pattern, '?')
    ||| seq_has_char(pattern, '[')
    ||| seq_has_char(pattern, '/')
    ||| seq_has_char(pattern, '\\')
}

/// `pattern` is `*` followed by a literal (no `*`, `?`, `[` or path separator).
pub open spec fn suffix_glob(pattern: Seq<char>) -> bool {
    pattern.len() > 0 && pattern[0] == '*' && !has_glob_meta(pattern.drop_first())
}

/// Calls `glob::Pattern::new(pattern)` and, when it compiles, `Pattern::matches(name)`;
/// a pattern that does not compile matches nothing. Claimed: the result is
/// `glob_matches(pattern, name)`; a pattern without `*`, `?`, `[` or a path separator
/// compiles to literal characters and so matches exactly the name equal to it; and `*`
/// followed by such a literal compiles to a sequence wildcard and those characters, which
/// (case-sensitively, and crossing separators under the default options) match exactly the
/// names that end with the literal.
#[verifier::external_body]
fn glob_match(pattern: &str, name: &str) -> (r: bool)
    ensures
        r == glob_matches(pattern@, name@),
        !has_glob_meta(pattern@) ==> (r <==> pattern@ == name@),
        suffix_glob(pattern@) ==> (r <==> seq_ends_with(name@, pattern@.drop_first())),
{
    glob::Pattern::new(pattern).map(|p| p.matches(name)).unwrap_or(false)
}

/// `pattern` is a literal (no `*`, `?`, `[` or separator) other than `name`, or `*` and a
/// literal that `name` does not end with: a pattern that cannot match `name`.
pub open spec fn plainly_misses(pattern: Seq<char>, name: Seq<char>) -> bool {
    ||| !has_glob_meta(pattern) && pattern != name
    ||| suffix_glob(pattern) && !seq_ends_with(name, pattern.drop_first())
}

/// Some pattern in `patterns` matches `name`.
pub open spec fn matches_any(name: Seq<char>, patterns: Seq<String>) -> bool {
    exists|j: int| 0 <= j < patterns.len() && glob_matches(patterns[j]@, name)
}

/// Whether some pattern of `patterns` matches `name`.
pub fn any_pattern_matches(name: &str, patterns: &[String]) -> (r: bool)
    ensures
        r == matches_any(name@, patterns@),
        forall|j: int|
            0 <= j < patterns@.len() && suffix_glob(#[trigger] patterns@[j]@) && seq_ends_with(
                name@,
                patterns@[j]@.drop_first(),
            ) ==> r,
        forall|j: int|
            0 <= j < patterns@.len() && !has_glob_meta(#[trigger] patterns@[j]@) && patterns@[j]@
                == name@ ==> r,
        (forall|j: int| 0 <= j < patterns@.len() ==> plainly_misses(#[trigger] patterns@[j]@, name@))
            ==> !r,
{
    let mut j: usize = 0;
    while j < patterns.len()
        invariant
            j <= patterns@.len(),
            forall|k: int| 0 <= k < j ==> !glob_matches(#[trigger] patterns@[k]@, name@),
            forall|k: int|
                0 <= k < j && suffix_glob(#[trigger] patterns@[k]@) ==> !seq_ends_with(
                    name@,
                    patterns@[k]@.drop_first(),
                ),
            forall|k: int|
                0 <= k < j && !has_glob_meta(#[trigger] patterns@[k]@) ==> patterns@[k]@ != name@,
        decreases patterns@.len() - j,
    {
        if glob_match(patterns[j].as_str(), name) {
            proof {
                assert(!plainly_misses(patterns@[j as int]@, name@));
            }
            return true;
        }
        j = j + 1;
    }
    false
}

/// The patterns of `layer` that place projects (`by_namespace` false) or namespaces in it.
pub open spec fn layer_patterns(layer: Layer, by_namespace: bool) -> Seq<String> {
    if by_namespace {
        layer.namespace_patterns@
    } else {
        layer.patterns@
    }
}

/// Layer `i` of `layers` claims `name`.
pub open spec fn layer_claims(name: Seq<char>, layers: Seq<Layer>, by_namespace: bool) -> spec_fn(
    int,
) -> bool {
    |i: int| matches_any(name, layer_patterns(layers[i], by_namespace))
}

/// The index of the first layer that claims `name`, if any.
pub open spec fn resolved_index(name: Seq<char>, layers: Seq<Layer>, by_namespace: bool) -> Option<
    int,
> {
    first_index(layers.len(), layer_claims(name, layers, by_namespace))
}

/// The name of the first layer that claims `name`, if any.
pub open spec fn resolved_name(name: Seq<char>, layers: Seq<Layer>, by_namespace: bool) -> Option<
    Seq<char>,
> {
    match resolved_index(name, layers, by_namespace) {
        Some(i) => Some(layers[i].name@),
        None => None,
    }
}

/// `resolved_index` is the least claiming index, and is `None` exactly when no layer claims.
pub proof fn lemma_resolved_index(name: Seq<char>, layers: Seq<Layer>, by_namespace: bool)
    ensures
        resolved_index(name, layers, by_namespace) matches Some(i) ==> 0 <= i < layers.len()
            && matches_any(name, layer_patterns(layers[i], by_namespace)) && forall|k: int|
            0 <= k < i ==> !matches_any(name, layer_patterns(#[trigger] layers[k], by_namespace)),
        resolved_index(name, layers, by_namespace) is None <==> forall|k: int|
            0 <= k < layers.len() ==> !matches_any(
                name,
                layer_patterns(#[trigger] layers[k], by_namespace),
            ),
{
    let p = layer_claims(name, layers, by_namespace);
    lemma_first_index(layers.len(), p);
    if resolved_index(name, layers, by_namespace) is None {
        assert forall|k: int| 0 <= k < layers.len() implies !matches_any(
            name,
            layer_patterns(#[trigger] layers[k], by_namespace),
        ) by {
            assert(!p(k));
        }
    } else {
        let i = resolved_index(name, layers, by_namespace)->0;
        assert forall|k: int| 0 <= k < i implies !matches_any(
            name,
            layer_patterns(#[trigger] layers[k], by_namespace),
        ) by {
            assert(!p(k));
        }
        assert(p(i));
        if forall|k: int|
            0 <= k < layers.len() ==> !matches_any(
                name,
                layer_patterns(#[trigger] layers[k], by_namespace),
            ) {
            let i = resolved_index(name, layers, by_namespace)->0;
            assert(p(i));
            assert(!matches_any(name, layer_patterns(layers[i], by_namespace)));
        }
    }
}

/// The index of the first layer whose project patterns (`by_namespace` false) or namespace
/// patterns claim `name`.
pub fn resolve_layer_index(name: &str, layers: &[Layer], by_namespace: bool) -> (r: Option<usize>)
    ensures
        r matches Some(i) ==> resolved_index(name@, layers@, by_namespace) == Some(i as int) && i
            < layers@.len(),
        r is None ==> resolved_index(name@, layers@, by_namespace) is None,
{
    let ghost p = layer_claims(name@, layers@, by_namespace);
    let mut i: usize = 0;
    while i < layers.len()
        invariant
            i <= layers@.len(),
            p == layer_claims(name@, layers@, by_namespace),
            first_index(i as nat, p) is None,
        decreases layers@.len() - i,
    {
        let patterns = if by_namespace {
            &layers[i].namespace_patterns
        } else {
            &layers[i].patterns
        };
        let hit = any_pattern_matches(name, patterns.as_slice());
        proof {
            assert(patterns@ == layer_patterns(layers@[i as int], by_namespace));
            assert(p(i as int) == hit);
            lemma_first_index_step(i as nat, p);
            lemma_first_index(i as nat, p);
            lemma_first_index(layers@.len(), p);
        }
        if hit {
            return Some(i);
        }
        i = i + 1;
    }
    None
}

/// The first layer whose project-name patterns match `project_name`.
pub fn resolve_layer<'a>(project_name: &str, layers: &'a [Layer]) -> (r: Option<&'a Layer>)
    ensures
        r is Some <==> resolved_index(project_name@, layers@, false) is Some,
        r matches Some(l) ==> *l == layers@[resolved_index(project_name@, layers@, false)->0],
{
    match resolve_layer_index(project_name, layers, false) {
        Some(i) => Some(&layers[i]),
        None => None,
    }
}

/// The first layer whose namespace patterns match the namespace `ns`.
pub fn resolve_layer_by_namespace<'a>(ns: &str, layers: &'a [Layer]) -> (r: Option<&'a Layer>)
    ensures
        r is Some <==> resolved_index(ns@, layers@, true) is Some,
        r matches Some(l) ==> *l == layers@[resolved_index(ns@, layers@, true)->0],
{
    match resolve_layer_index(ns, layers, true) {
        Some(i) => Some(&layers[i]),
        None => None,
    }
}

/// Whether `project_name` matches one of the ignore patterns.
pub fn is_ignored(project_name: &str, ignore_patterns: &[String]) -> (r: bool)
    ensures
        r == matches_any(project_name@, ignore_patterns@),
{
    any_pattern_matches(project_name, ignore_patterns)
}

} // verus!
