//! What holds of the text that a derive stands for.

use vstd::prelude::*;

use crate::derive::Binding;

verus! {

/// Texts are those of the strings, one for each.
pub proof fn texts_are_those_of_the_strings(strings: Seq<String>, i: int)
    requires
        0 <= i < strings.len(),
    ensures
        crate::derive::texts(strings).len() == strings.len(),
        crate::derive::texts(strings)[i] == strings[i]@,
{
}

/// A binding has the text of its variable and those of its attributes.
pub proof fn a_binding_has_its_texts(binding: Binding, i: int)
    requires
        0 <= i < binding.attrs@.len(),
    ensures
        binding.text().0 == binding.ident@,
        binding.text().1.len() == binding.attrs@.len(),
        binding.text().1[i] == binding.attrs@[i]@,
{
}

/// There is no body for a field exactly if one of its attributes says to ignore it.
pub proof fn a_field_is_ignored_by_its_attribute(ident: Seq<char>, attrs: Seq<Seq<char>>)
    ensures
        crate::derive::body_for(ident, attrs).len() == 0 <==> exists|i: int|
            0 <= i < attrs.len() && attrs[i] == "unsafe_ignore_cgc"@,
{
    reveal_strlit("mark ( ");
    reveal_strlit(" ) ;");
}

/// For any other field, whatever attributes it has, the body calls `mark` on its variable.
pub proof fn a_field_is_marked(ident: Seq<char>, attrs: Seq<Seq<char>>)
    requires
        forall|i: int| 0 <= i < attrs.len() ==> #[trigger] attrs[i] != "unsafe_ignore_cgc"@,
    ensures
        ({
            let body = crate::derive::body_for(ident, attrs);
            &&& body.len() == ident.len() + 11
            &&& body.take(7) == "mark ( "@
            &&& body.subrange(7, 7 + ident.len() as int) == ident
            &&& body.skip(7 + ident.len() as int) == " ) ;"@
        }),
{
    reveal_strlit("mark ( ");
    reveal_strlit(" ) ;");
    let body = crate::derive::body_for(ident, attrs);
    assert(body.take(7) =~= "mark ( "@);
    assert(body.subrange(7, 7 + ident.len() as int) =~= ident);
    assert(body.skip(7 + ident.len() as int) =~= " ) ;"@);
}

/// The other attributes of a field do not matter to its body, and fields with different variables
/// that are not ignored have different bodies.
pub proof fn only_the_variable_matters(
    ident: Seq<char>,
    attrs: Seq<Seq<char>>,
    other_ident: Seq<char>,
    other_attrs: Seq<Seq<char>>,
)
    requires
        !attrs.contains("unsafe_ignore_cgc"@),
        !other_attrs.contains("unsafe_ignore_cgc"@),
    ensures
        crate::derive::body_for(ident, attrs) == crate::derive::body_for(other_ident, other_attrs) <==> ident
            == other_ident,
{
    let body = crate::derive::body_for(ident, attrs);
    let other = crate::derive::body_for(other_ident, other_attrs);
    assert forall|i: int| 0 <= i < attrs.len() implies #[trigger] attrs[i]
        != "unsafe_ignore_cgc"@ by {
        assert(attrs.contains(attrs[i]));
    }
    assert forall|i: int| 0 <= i < other_attrs.len() implies #[trigger] other_attrs[i]
        != "unsafe_ignore_cgc"@ by {
        assert(other_attrs.contains(other_attrs[i]));
    }
    a_field_is_marked(ident, attrs);
    a_field_is_marked(other_ident, other_attrs);
}

/// A field keeps each further attribute after those that it keeps before, unless that one says to
/// ignore the field.
pub proof fn only_the_attribute_is_lost(attrs: Seq<Seq<char>>, other: Seq<char>)
    requires
        attrs.len() < usize::MAX,
    ensures
        crate::derive::kept_of(Seq::empty()).len() == 0,
        other == "unsafe_ignore_cgc"@ ==> crate::derive::kept_of(attrs.push(other)) == crate::derive::kept_of(
            attrs,
        ),
        other != "unsafe_ignore_cgc"@ ==> crate::derive::kept_of(attrs.push(other)) == crate::derive::kept_of(
            attrs,
        ).push(attrs.len() as usize),
{
    assert(attrs.push(other).drop_last() =~= attrs);
}

/// One text is put after another with exactly one space between them, unless one is empty.
pub proof fn texts_are_joined_by_a_space(first: Seq<char>, second: Seq<char>)
    ensures
        first.len() == 0 ==> crate::derive::joined(first, second) == second,
        second.len() == 0 ==> crate::derive::joined(first, second) == first,
        first.len() > 0 && second.len() > 0 ==> {
            let both = crate::derive::joined(first, second);
            &&& both.len() == first.len() + 1 + second.len()
            &&& both.take(first.len() as int) == first
            &&& both[first.len() as int] == ' '
            &&& both.skip(first.len() as int + 1) == second
        },
{
    reveal_strlit(" ");
    let both = crate::derive::joined(first, second);
    if first.len() == 0 {
        assert(both =~= second);
    } else if second.len() == 0 {
        assert(both =~= first);
    } else {
        assert(both.take(first.len() as int) =~= first);
        assert(both.skip(first.len() as int + 1) =~= second);
    }
}

/// The texts with a space between them, unless one is empty.
pub open spec fn spaced(a: Seq<char>, b: Seq<char>) -> Seq<char> {
    if a.len() == 0 {
        b
    } else if b.len() == 0 {
        a
    } else {
        a.push(' ') + b
    }
}

/// The method has its name twice: where it is declared, and where it calls the method of the same
/// name on each field. Its branches are the ones that are given.
pub proof fn a_method_calls_its_own_name(name: Seq<char>, arms: Seq<char>)
    ensures
        ({
            let head = "# [ inline ] unsafe fn "@ + name
                + " ( & self ) { # [ allow ( dead_code ) ] # [ inline ] unsafe fn mark < T : :: cgc :: CgcCompat > ( it : & T ) { :: cgc :: CgcCompat :: "@
                + name + " ( it ) ; } match * self {"@;
            crate::derive::method_text(name, arms) == spaced(spaced(head, arms), "} }"@)
        }),
{
    joined_is_spaced();
}

proof fn joined_is_spaced()
    ensures
        forall|a: Seq<char>, b: Seq<char>| #[trigger] crate::derive::joined(a, b) == spaced(a, b),
{
    assert forall|a: Seq<char>, b: Seq<char>| #[trigger]
        crate::derive::joined(a, b) == spaced(a, b) by {
        texts_are_joined_by_a_space(a, b);
        reveal_strlit(" ");
        assert(crate::derive::joined(a, b) =~= spaced(a, b));
    }
}

/// The text is the type, and after it an implementation with the parameters of the type, its name
/// and its bounds, and with the three methods, all of which have the same branches.
pub proof fn the_text_has_all_its_parts(
    item: Seq<char>,
    name: Seq<char>,
    impl_generics: Seq<char>,
    ty_generics: Seq<char>,
    where_clause: Seq<char>,
    arms: Seq<char>,
)
    ensures
        ({
            let t1 = spaced(item, "unsafe impl"@);
            let t2 = spaced(t1, impl_generics);
            let t3 = spaced(t2, ":: cgc :: CgcCompat for"@);
            let t4 = spaced(t3, name);
            let t5 = spaced(t4, ty_generics);
            let t6 = spaced(t5, where_clause);
            let t7 = spaced(t6, "{"@);
            let t8 = spaced(t7, crate::derive::method_text("trace"@, arms));
            let t9 = spaced(t8, crate::derive::method_text("root"@, arms));
            let t10 = spaced(t9, crate::derive::method_text("unroot"@, arms));
            crate::derive::derived_text(item, (name, impl_generics, ty_generics, where_clause), arms)
                == spaced(t10, "}"@)
        }),
{
    joined_is_spaced();
}

/// The text for a source has the type with the attributes that its fields keep, its name and
/// parameters, and branches with a body for each of its fields, in their order.
pub proof fn each_field_has_its_body(
    source: Seq<char>,
    kept: Seq<Seq<usize>>,
    bodies: Seq<Seq<char>>,
)
    requires
        kept.len() == crate::derive::bindings_of(source).len(),
        bodies.len() == crate::derive::bindings_of(source).len(),
        forall|i: int|
            0 <= i < kept.len() ==> #[trigger] kept[i] == crate::derive::kept_of(
                crate::derive::bindings_of(source)[i].1,
            ),
        forall|i: int|
            0 <= i < bodies.len() ==> #[trigger] bodies[i] == crate::derive::body_for(
                crate::derive::bindings_of(source)[i].0,
                crate::derive::bindings_of(source)[i].1,
            ),
    ensures
        crate::derive::derivation(source) == crate::derive::derived_text(
            crate::derive::item_of(source, kept),
            crate::derive::outline_of(source),
            crate::derive::arms_of(source, bodies),
        ),
{
    assert(crate::derive::all_kept(crate::derive::bindings_of(source)) =~= kept);
    assert(crate::derive::bodies_of(crate::derive::bindings_of(source)) =~= bodies);
}

} // verus!
