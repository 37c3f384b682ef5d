//! The text that `#[derive(CgcCompat)]` stands for.

use vstd::prelude::*;
use vstd::string::{StrSliceExecFns, StringExecFns};

use crate::scan;

verus! {

/// Why there is no text for a type.
#[derive(Debug)]
pub enum DeriveError {
    /// The source is not that of a structure or an enumeration. The message says what of it
    /// could not be read.
    Parse(String),
    /// The source may have a byte literal of a character outside of ASCII.
    WideByte,
}

/// A field of the type, as a branch of a `match` binds it.
pub struct Binding {
    /// The variable that it is bound to.
    pub ident: String,
    /// The names of the attributes on the field.
    pub attrs: Vec<String>,
}

/// The characters of each of the strings.
pub open spec fn texts(strings: Seq<String>) -> Seq<Seq<char>> {
    strings.map_values(|s: String| s@)
}

impl Binding {
    pub open spec fn text(self) -> (Seq<char>, Seq<Seq<char>>) {
        (self.ident@, texts(self.attrs@))
    }
}

/// Why [`syn::parse_macro_input`] cannot read the source, if it cannot.
pub uninterp spec fn parse_failure(source: Seq<char>) -> Option<Seq<char>>;

/// The variable and the names of the attributes of each field, in the order in which
/// [`synstructure::each_variant`] binds them.
pub uninterp spec fn bindings_of(source: Seq<char>) -> Seq<(Seq<char>, Seq<Seq<char>>)>;

/// The branches that [`synstructure::each_field`] makes, with `bodies` for the fields.
pub uninterp spec fn arms_of(source: Seq<char>, bodies: Seq<Seq<char>>) -> Seq<char>;

/// The name of the type, and what [`syn::Generics::split_for_impl`] makes of its parameters: those
/// of the implementation, those of the type, and the clause with the bounds.
pub uninterp spec fn outline_of(source: Seq<char>) -> (Seq<char>, Seq<char>, Seq<char>, Seq<char>);

/// The type itself as [`quote::ToTokens`] prints it, when each field has only those of its
/// attributes that are at the positions in `kept`.
pub uninterp spec fn item_of(source: Seq<char>, kept: Seq<Seq<usize>>) -> Seq<char>;

/// The field has the attribute that keeps it from being traced.
pub open spec fn ignored(attrs: Seq<Seq<char>>) -> bool {
    attrs.contains("unsafe_ignore_cgc"@)
}

/// What is done with a field: its handles are passed over, unless it is to be ignored.
pub open spec fn body_for(ident: Seq<char>, attrs: Seq<Seq<char>>) -> Seq<char> {
    if ignored(attrs) {
        Seq::empty()
    } else {
        "mark ( "@ + ident + " ) ;"@
    }
}

/// The positions of the attributes that the field keeps: all but those that only say to ignore
/// the field.
pub open spec fn kept_of(attrs: Seq<Seq<char>>) -> Seq<usize>
    decreases attrs.len(),
{
    if attrs.len() == 0 {
        Seq::empty()
    } else {
        let before = kept_of(attrs.drop_last());
        if attrs.last() == "unsafe_ignore_cgc"@ {
            before
        } else {
            before.push((attrs.len() - 1) as usize)
        }
    }
}

/// One text after another, with a space between them unless one is empty.
pub open spec fn joined(first: Seq<char>, second: Seq<char>) -> Seq<char> {
    if first.len() == 0 || second.len() == 0 {
        first + second
    } else {
        first + " "@ + second
    }
}

/// The method `name`, which passes over the handles in a value with the branches `arms`.
pub open spec fn method_text(name: Seq<char>, arms: Seq<char>) -> Seq<char> {
    let head = "# [ inline ] unsafe fn "@ + name
        + " ( & self ) { # [ allow ( dead_code ) ] # [ inline ] unsafe fn mark < T : :: cgc :: CgcCompat > ( it : & T ) { :: cgc :: CgcCompat :: "@
        + name + " ( it ) ; } match * self {"@;
    joined(joined(head, arms), "} }"@)
}

/// The type, and after it the implementation.
pub open spec fn derived_text(
    item: Seq<char>,
    outline: (Seq<char>, Seq<char>, Seq<char>, Seq<char>),
    arms: Seq<char>,
) -> Seq<char> {
    let (name, impl_generics, ty_generics, where_clause) = outline;
    let head = joined(joined(item, "unsafe impl"@), impl_generics);
    let named = joined(joined(head, ":: cgc :: CgcCompat for"@), name);
    let opened = joined(joined(joined(named, ty_generics), where_clause), "{"@);
    let traced = joined(opened, method_text("trace"@, arms));
    let rooted = joined(traced, method_text("root"@, arms));
    joined(joined(rooted, method_text("unroot"@, arms)), "}"@)
}

/// The bodies for all the fields.
pub open spec fn bodies_of(bindings: Seq<(Seq<char>, Seq<Seq<char>>)>) -> Seq<Seq<char>> {
    bindings.map_values(|b: (Seq<char>, Seq<Seq<char>>)| body_for(b.0, b.1))
}

/// The attributes that each of the fields keeps.
pub open spec fn all_kept(bindings: Seq<(Seq<char>, Seq<Seq<char>>)>) -> Seq<Seq<usize>> {
    bindings.map_values(|b: (Seq<char>, Seq<Seq<char>>)| kept_of(b.1))
}

/// What `derive_cgccompat` makes of a source that can be read.
pub open spec fn derivation(source: Seq<char>) -> Seq<char> {
    let bindings = bindings_of(source);
    derived_text(
        item_of(source, all_kept(bindings)),
        outline_of(source),
        arms_of(source, bodies_of(bindings)),
    )
}

/// A field keeps its attributes in their order, and loses those that say to ignore it. So it is
/// ignored exactly if it loses one.
pub proof fn all_others_are_kept(attrs: Seq<Seq<char>>)
    requires
        attrs.len() <= usize::MAX,
    ensures
        forall|i: usize|
            i < attrs.len() ==> (#[trigger] kept_of(attrs).contains(i) <==> attrs[i as int]
                != "unsafe_ignore_cgc"@),
        forall|a: int, b: int|
            0 <= a < b < kept_of(attrs).len() ==> #[trigger] kept_of(attrs)[a]
                < #[trigger] kept_of(attrs)[b],
        forall|a: int| 0 <= a < kept_of(attrs).len() ==> #[trigger] kept_of(attrs)[a] < attrs.len(),
        kept_of(attrs).len() <= attrs.len(),
        ignored(attrs) <==> kept_of(attrs).len() < attrs.len(),
    decreases attrs.len(),
{
    if attrs.len() > 0 {
        let rest = attrs.drop_last();
        let before = kept_of(rest);
        let kept = kept_of(attrs);
        let last = (attrs.len() - 1) as usize;
        all_others_are_kept(rest);
        assert(ignored(attrs) <==> ignored(rest) || attrs.last() == "unsafe_ignore_cgc"@) by {
            if ignored(rest) {
                let j = choose|j: int| 0 <= j < rest.len() && rest[j] == "unsafe_ignore_cgc"@;
                assert(attrs[j] == "unsafe_ignore_cgc"@);
            }
            if attrs.last() == "unsafe_ignore_cgc"@ {
                assert(attrs[last as int] == "unsafe_ignore_cgc"@);
            }
            if ignored(attrs) && attrs.last() != "unsafe_ignore_cgc"@ {
                let j = choose|j: int| 0 <= j < attrs.len() && attrs[j] == "unsafe_ignore_cgc"@;
                assert(rest[j] == "unsafe_ignore_cgc"@);
            }
        }
        assert forall|i: usize| i < attrs.len() implies (#[trigger] kept.contains(i)
            <==> attrs[i as int] != "unsafe_ignore_cgc"@) by {
            assert(before.contains(i) ==> i < rest.len());
            if i < rest.len() {
                assert(before.contains(i) <==> rest[i as int] != "unsafe_ignore_cgc"@);
                if before.contains(i) {
                    let a = choose|a: int| 0 <= a < before.len() && before[a] == i;
                    assert(kept[a] == i);
                }
                if kept.contains(i) {
                    let a = choose|a: int| 0 <= a < kept.len() && kept[a] == i;
                    assert(before[a] == i);
                }
            } else if attrs.last() != "unsafe_ignore_cgc"@ {
                assert(kept[before.len() as int] == i);
            }
        }
    }
}

/// Calls [`syn::parse_macro_input`] and keeps only why it failed. That is a function of the source.
/// It panics where it tries to read a byte literal of a character outside of ASCII, which a source
/// without [`scan::has_wide_byte`] does not have.
#[verifier::external_body]
fn parse(source: &str) -> (failure: Option<String>)
    requires
        !scan::has_wide_byte(source@),
    ensures
        failure is Some <==> parse_failure(source@) is Some,
        failure matches Some(message) ==> parse_failure(source@) == Some(message@),
{
    syn::parse_macro_input(source).err()
}

/// Calls [`synstructure::each_variant`] on a source that can be read, and takes down the bindings
/// that it hands to its closure: for each field the variable and the names of the attributes.
#[verifier::external_body]
fn bindings(source: &str) -> (found: Vec<Binding>)
    requires
        !scan::has_wide_byte(source@),
        parse_failure(source@) is None,
    ensures
        found@.map_values(|b: Binding| b.text()) == bindings_of(source@),
{
    let ast = syn::parse_macro_input(source).unwrap();
    let mut found = Vec::new();
    synstructure::each_variant(&ast, &synstructure::BindStyle::Ref.into(), |bindings, _| {
        found.extend(bindings.iter().map(|b| Binding {
            ident: b.ident.to_string(),
            attrs: b.field.attrs.iter().map(|a| a.name().to_string()).collect(),
        }));
        quote::Tokens::new()
    });
    found
}

/// Calls [`synstructure::each_field`] on a source that can be read, with a closure that hands out
/// the bodies one after another, and prints the branches that it makes.
#[verifier::external_body]
fn match_arms(source: &str, bodies: &Vec<String>) -> (arms: String)
    requires
        !scan::has_wide_byte(source@),
        parse_failure(source@) is None,
        bodies@.len() == bindings_of(source@).len(),
    ensures
        arms@ == arms_of(source@, texts(bodies@)),
{
    let ast = syn::parse_macro_input(source).unwrap();
    let mut next = bodies.iter();
    let arms = synstructure::each_field(&ast, &synstructure::BindStyle::Ref.into(), |_| {
        let mut tokens = quote::Tokens::new();
        tokens.append(next.next().unwrap());
        tokens
    });
    arms.to_string()
}

/// Calls [`syn::Generics::split_for_impl`] on a source that can be read, and prints the three parts
/// that it gives, after the name of the type.
#[verifier::external_body]
fn outline(source: &str) -> (parts: (String, String, String, String))
    requires
        !scan::has_wide_byte(source@),
        parse_failure(source@) is None,
    ensures
        (parts.0@, parts.1@, parts.2@, parts.3@) == outline_of(source@),
{
    let ast = syn::parse_macro_input(source).unwrap();
    let print = |part: &dyn quote::ToTokens| {
        let mut tokens = quote::Tokens::new();
        part.to_tokens(&mut tokens);
        tokens.to_string()
    };
    let (impl_generics, ty_generics, where_clause) = ast.generics.split_for_impl();
    (ast.ident.to_string(), print(&impl_generics), print(&ty_generics), print(where_clause))
}

/// Prints a source that can be read with [`quote::ToTokens`], after each field was given only
/// those of its attributes that are at the positions for it in `kept`.
#[verifier::external_body]
fn item_text(source: &str, kept: &Vec<Vec<usize>>) -> (item: String)
    requires
        !scan::has_wide_byte(source@),
        parse_failure(source@) is None,
        kept@.len() == bindings_of(source@).len(),
        forall|i: int, j: int|
            0 <= i < kept@.len() && 0 <= j < kept@[i]@.len() ==> #[trigger] kept@[i]@[j]
                < bindings_of(source@)[i].1.len(),
    ensures
        item@ == item_of(source@, kept@.map_values(|row: Vec<usize>| row@)),
{
    let mut ast = syn::parse_macro_input(source).unwrap();
    let mut rows = kept.iter();
    let mut pick = |field: &mut syn::Field| {
        let row = rows.next().unwrap().iter();
        field.attrs = row.map(|&j| field.attrs[j].clone()).collect();
    };
    match ast.body {
        syn::Body::Struct(ref mut data) => data.fields_mut().iter_mut().for_each(pick),
        syn::Body::Enum(ref mut variants) => {
            variants.iter_mut().for_each(|v| v.data.fields_mut().iter_mut().for_each(&mut pick))
        },
    }
    let mut tokens = quote::Tokens::new();
    quote::ToTokens::to_tokens(&ast, &mut tokens);
    tokens.to_string()
}

/// Adds a text after another.
fn join(text: &mut String, next: &str)
    ensures
        final(text)@ == joined(old(text)@, next@),
{
    if text.as_str().unicode_len() > 0 && next.unicode_len() > 0 {
        text.append(" ");
    }
    text.append(next);
}

/// What is done with a field: its handles are passed over, unless it has the attribute
/// `unsafe_ignore_cgc`.
pub fn field_body(binding: &Binding) -> (body: String)
    ensures
        body@ == body_for(binding.ident@, texts(binding.attrs@)),
{
    let kept = kept_attrs(&binding.attrs);
    let count: usize = binding.attrs.len();
    proof {
        all_others_are_kept(texts(binding.attrs@));
    }
    if kept.len() != count {
        String::new()
    } else {
        let mut body = "mark ( ".to_owned();
        body.append(binding.ident.as_str());
        body.append(" ) ;");
        body
    }
}

/// The positions of the attributes that a field keeps: all but `unsafe_ignore_cgc`.
pub fn kept_attrs(attrs: &Vec<String>) -> (kept: Vec<usize>)
    ensures
        kept@ == kept_of(texts(attrs@)),
        forall|i: int| 0 <= i < kept@.len() ==> #[trigger] kept@[i] < attrs@.len(),
{
    let ignore = "unsafe_ignore_cgc".to_owned();
    let mut kept: Vec<usize> = Vec::new();
    let mut i: usize = 0;
    while i < attrs.len()
        invariant
            i <= attrs@.len(),
            ignore@ == "unsafe_ignore_cgc"@,
            kept@ == kept_of(texts(attrs@).take(i as int)),
        decreases attrs@.len() - i,
    {
        proof {
            let now = texts(attrs@).take(i + 1);
            assert(now.drop_last() =~= texts(attrs@).take(i as int));
            assert(now.last() == attrs@[i as int]@);
        }
        if attrs[i] != ignore {
            kept.push(i);
        }
        i = i + 1;
    }
    proof {
        assert(texts(attrs@).take(i as int) =~= texts(attrs@));
        all_others_are_kept(texts(attrs@));
    }
    kept
}

/// The method `name`, which passes over the handles in a value with the branches `arms`.
fn method(name: &str, arms: &str) -> (text: String)
    ensures
        text@ == method_text(name@, arms@),
{
    let mut text = "# [ inline ] unsafe fn ".to_owned();
    text.append(name);
    text.append(
        " ( & self ) { # [ allow ( dead_code ) ] # [ inline ] unsafe fn mark < T : :: cgc :: CgcCompat > ( it : & T ) { :: cgc :: CgcCompat :: ",
    );
    text.append(name);
    text.append(" ( it ) ; } match * self {");
    join(&mut text, arms);
    join(&mut text, "} }");
    text
}

/// The type, and after it the implementation, out of their parts.
pub fn impl_text(
    item: &str,
    name: &str,
    impl_generics: &str,
    ty_generics: &str,
    where_clause: &str,
    arms: &str,
) -> (text: String)
    ensures
        text@ == derived_text(
            item@,
            (name@, impl_generics@, ty_generics@, where_clause@),
            arms@,
        ),
{
    let mut text = item.to_owned();
    join(&mut text, "unsafe impl");
    join(&mut text, impl_generics);
    join(&mut text, ":: cgc :: CgcCompat for");
    join(&mut text, name);
    join(&mut text, ty_generics);
    join(&mut text, where_clause);
    join(&mut text, "{");
    join(&mut text, method("trace", arms).as_str());
    join(&mut text, method("root", arms).as_str());
    join(&mut text, method("unroot", arms).as_str());
    join(&mut text, "}");
    text
}

/// The source of a structure or an enumeration, without the attributes that say to ignore a
/// field, and after it the implementation of `CgcCompat` that passes over the handles in every
/// field that is not to be ignored.
pub fn derive_cgccompat(source: &str) -> (derived: Result<String, DeriveError>)
    ensures
        derived is Ok <==> !scan::has_wide_byte(source@) && parse_failure(source@) is None,
        derived matches Ok(text) ==> text@ == derivation(source@),
        derived matches Err(DeriveError::WideByte) ==> scan::has_wide_byte(source@),
        derived matches Err(DeriveError::Parse(message)) ==> !scan::has_wide_byte(source@)
            && parse_failure(source@) == Some(message@),
{
    if scan::finds_wide_byte(source) {
        return Err(DeriveError::WideByte);
    }
    if let Some(message) = parse(source) {
        return Err(DeriveError::Parse(message));
    }
    let fields = bindings(source);
    let ghost all = bindings_of(source@);
    let mut bodies: Vec<String> = Vec::new();
    let mut kept: Vec<Vec<usize>> = Vec::new();
    let mut i: usize = 0;
    while i < fields.len()
        invariant
            i <= fields@.len(),
            all == fields@.map_values(|b: Binding| b.text()),
            bodies@.len() == i,
            kept@.len() == i,
            forall|j: int|
                0 <= j < i ==> #[trigger] bodies@[j]@ == body_for(all[j].0, all[j].1),
            forall|j: int| 0 <= j < i ==> #[trigger] kept@[j]@ == kept_of(all[j].1),
            forall|j: int, k: int|
                0 <= j < i && 0 <= k < kept@[j]@.len() ==> #[trigger] kept@[j]@[k]
                    < all[j].1.len(),
        decreases fields@.len() - i,
    {
        bodies.push(field_body(&fields[i]));
        kept.push(kept_attrs(&fields[i].attrs));
        i = i + 1;
    }
    proof {
        assert(texts(bodies@) =~= bodies_of(all));
        assert(kept@.map_values(|row: Vec<usize>| row@) =~= all_kept(all));
    }
    let arms = match_arms(source, &bodies);
    let item = item_text(source, &kept);
    let (name, impl_generics, ty_generics, where_clause) = outline(source);
    Ok(
        impl_text(
            item.as_str(),
            name.as_str(),
            impl_generics.as_str(),
            ty_generics.as_str(),
            where_clause.as_str(),
            arms.as_str(),
        ),
    )
}

} // verus!
