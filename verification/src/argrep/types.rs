//! The file types that --type and --type-not know.

use crate::globs;
use glob::Pattern;
use vstd::prelude::*;
use vstd::string::*;

verus! {

/// A file type: its name, and the patterns of the names of its files.
pub struct FileType {
    pub name: String,
    pub globs: Vec<String>,
}

/// What a file type amounts to.
pub ghost struct FileTypeView {
    pub name: Seq<char>,
    pub globs: Seq<Seq<char>>,
}

impl View for FileType {
    type V = FileTypeView;

    open spec fn view(&self) -> FileTypeView {
        FileTypeView { name: self.name@, globs: self.globs.deep_view() }
    }
}

impl DeepView for FileType {
    type V = FileTypeView;

    open spec fn deep_view(&self) -> FileTypeView {
        self@
    }
}

/// A file type.
pub open spec fn file_type(name: Seq<char>, globs: Seq<Seq<char>>) -> FileTypeView {
    FileTypeView { name, globs }
}

/// The built-in file types.
pub open spec fn all_types() -> Seq<FileTypeView> {
    seq![
        file_type("rust"@, seq!["*.rs"@]),
        file_type("python"@, seq!["*.py"@, "*.pyi"@]),
        file_type("javascript"@, seq!["*.js"@, "*.jsx"@, "*.mjs"@, "*.cjs"@]),
        file_type("typescript"@, seq!["*.ts"@, "*.tsx"@]),
        file_type("json"@, seq!["*.json"@]),
        file_type("yaml"@, seq!["*.yaml"@, "*.yml"@]),
        file_type("toml"@, seq!["*.toml"@]),
        file_type("markdown"@, seq!["*.md"@]),
        file_type("shell"@, seq!["*.sh"@, "*.bash"@, "*.zsh"@]),
    ]
}

/// A file type with one pattern, or as many as are given.
fn make_type(name: &str, globs: Vec<String>) -> (r: FileType)
    ensures
        r@ == file_type(name@, globs.deep_view()),
{
    FileType { name: name.to_string(), globs }
}

fn one(a: &str) -> (r: Vec<String>)
    ensures
        r.deep_view() == seq![a@],
{
    let r = vec![a.to_string()];
    assert(r.deep_view() =~= seq![a@]);
    r
}

fn two(a: &str, b: &str) -> (r: Vec<String>)
    ensures
        r.deep_view() == seq![a@, b@],
{
    let r = vec![a.to_string(), b.to_string()];
    assert(r.deep_view() =~= seq![a@, b@]);
    r
}

fn three(a: &str, b: &str, c: &str) -> (r: Vec<String>)
    ensures
        r.deep_view() == seq![a@, b@, c@],
{
    let r = vec![a.to_string(), b.to_string(), c.to_string()];
    assert(r.deep_view() =~= seq![a@, b@, c@]);
    r
}

fn four(a: &str, b: &str, c: &str, d: &str) -> (r: Vec<String>)
    ensures
        r.deep_view() == seq![a@, b@, c@, d@],
{
    let r = vec![a.to_string(), b.to_string(), c.to_string(), d.to_string()];
    assert(r.deep_view() =~= seq![a@, b@, c@, d@]);
    r
}

/// The built-in file types.
pub fn type_table() -> (r: Vec<FileType>)
    ensures
        r.deep_view() == all_types(),
{
    let r = vec![
        make_type("rust", one("*.rs")),
        make_type("python", two("*.py", "*.pyi")),
        make_type("javascript", four("*.js", "*.jsx", "*.mjs", "*.cjs")),
        make_type("typescript", two("*.ts", "*.tsx")),
        make_type("json", one("*.json")),
        make_type("yaml", two("*.yaml", "*.yml")),
        make_type("toml", one("*.toml")),
        make_type("markdown", one("*.md")),
        make_type("shell", three("*.sh", "*.bash", "*.zsh")),
    ];
    assert(r.deep_view() =~= all_types());
    r
}

/// Every pattern of the built-in types is simple enough to always compile.
pub proof fn built_in_globs_compile()
    ensures
        forall|i: int, j: int|
            #![trigger all_types()[i].globs[j]]
            0 <= i < all_types().len() && 0 <= j < all_types()[i].globs.len()
                ==> globs::is_simple_glob(all_types()[i].globs[j]),
{
    reveal_strlit("*.rs");
    reveal_strlit("*.py");
    reveal_strlit("*.pyi");
    reveal_strlit("*.js");
    reveal_strlit("*.jsx");
    reveal_strlit("*.mjs");
    reveal_strlit("*.cjs");
    reveal_strlit("*.ts");
    reveal_strlit("*.tsx");
    reveal_strlit("*.json");
    reveal_strlit("*.yaml");
    reveal_strlit("*.yml");
    reveal_strlit("*.toml");
    reveal_strlit("*.md");
    reveal_strlit("*.sh");
    reveal_strlit("*.bash");
    reveal_strlit("*.zsh");
    assert(globs::is_simple_glob("*.rs"@));
    assert(globs::is_simple_glob("*.py"@));
    assert(globs::is_simple_glob("*.pyi"@));
    assert(globs::is_simple_glob("*.js"@));
    assert(globs::is_simple_glob("*.jsx"@));
    assert(globs::is_simple_glob("*.mjs"@));
    assert(globs::is_simple_glob("*.cjs"@));
    assert(globs::is_simple_glob("*.ts"@));
    assert(globs::is_simple_glob("*.tsx"@));
    assert(globs::is_simple_glob("*.json"@));
    assert(globs::is_simple_glob("*.yaml"@));
    assert(globs::is_simple_glob("*.yml"@));
    assert(globs::is_simple_glob("*.toml"@));
    assert(globs::is_simple_glob("*.md"@));
    assert(globs::is_simple_glob("*.sh"@));
    assert(globs::is_simple_glob("*.bash"@));
    assert(globs::is_simple_glob("*.zsh"@));
}

/// The patterns of the first type of that name.
pub open spec fn globs_of(types: Seq<FileTypeView>, name: Seq<char>) -> Option<Seq<Seq<char>>>
    decreases types.len(),
{
    if types.len() == 0 {
        None
    } else if types[0].name == name {
        Some(types[0].globs)
    } else {
        globs_of(types.drop_first(), name)
    }
}

/// The patterns of a built-in type, if there is one of that name.
pub fn type_globs(name: &str) -> (r: Option<Vec<String>>)
    ensures
        match r {
            Some(v) => globs_of(all_types(), name@) == Some(v.deep_view()),
            None => globs_of(all_types(), name@) is None,
        },
        r matches Some(v) ==> forall|j: int|
            0 <= j < v@.len() ==> globs::is_simple_glob((#[trigger] v@[j])@),
{
    let wanted = name.to_string();
    let mut table = type_table();
    let ghost all = all_types();
    let ghost mut k: int = 0;
    assert(all.skip(0) =~= all);
    while table.len() > 0
        invariant
            wanted@ == name@,
            all == all_types(),
            0 <= k <= all.len(),
            table.deep_view() == all.skip(k),
            globs_of(all, name@) == globs_of(all.skip(k), name@),
        decreases table@.len(),
    {
        let ghost now = table.deep_view();
        let first = table.remove(0);
        proof {
            assert(first@ == now[0]);
            assert(now[0] == all[k]);
            assert(table.deep_view() =~= now.drop_first());
            assert(all.skip(k).drop_first() =~= all.skip(k + 1));
        }
        if first.name == wanted {
            proof {
                built_in_globs_compile();
                assert forall|j: int| 0 <= j < first.globs@.len() implies globs::is_simple_glob(
                    (#[trigger] first.globs@[j])@,
                ) by {
                    assert(first.globs@[j]@ == first.globs.deep_view()[j]);
                    assert(first.globs.deep_view()[j] == all_types()[k].globs[j]);
                }
            }
            return Some(first.globs);
        }
        proof {
            k = k + 1;
        }
    }
    None
}

/// Names with a comma between them.
pub open spec fn listed_names(types: Seq<FileTypeView>) -> Seq<char>
    decreases types.len(),
{
    if types.len() == 0 {
        seq![]
    } else if types.len() == 1 {
        types[0].name
    } else {
        listed_names(types.drop_last()) + ", "@ + types.last().name
    }
}

/// The names of the built-in types, for the user to read.
pub fn known_type_names() -> (r: String)
    ensures
        r@ == listed_names(all_types()),
{
    let table = type_table();
    let ghost all = all_types();
    assert(table.deep_view().len() == table@.len());
    let mut out = table[0].name.clone();
    assert(all.take(1)[0] == all[0]);
    assert(table.deep_view()[0] == table@[0]@);
    let mut i: usize = 1;
    while i < table.len()
        invariant
            1 <= i <= table.len(),
            all == table.deep_view(),
            out@ == listed_names(all.take(i as int)),
        decreases table.len() - i,
    {
        out.append(", ");
        out.append(table[i].name.as_str());
        proof {
            let next = all.take(i + 1);
            assert(next.drop_last() =~= all.take(i as int));
            assert(next.last() == all[i as int]);
            assert(all[i as int] == table@[i as int]@);
        }
        i += 1;
    }
    assert(all.take(table.len() as int) =~= all);
    out
}

/// What is said of a name that is not that of a type.
pub open spec fn unknown_type(name: Seq<char>) -> Seq<char> {
    "unknown type '"@ + name + "' (known types: "@ + listed_names(all_types()) + ")"@
}

/// Checks the name of a type, as it is given on the command line.
pub fn type_name_parser(s: &str) -> (r: Result<String, String>)
    ensures
        match r {
            Ok(name) => name@ == s@ && globs_of(all_types(), s@) is Some,
            Err(e) => e@ == unknown_type(s@) && globs_of(all_types(), s@) is None,
        },
{
    match type_globs(s) {
        Some(_) => Ok(s.to_string()),
        None => Err(
            "unknown type '".to_string().concat(s).concat("' (known types: ").concat(
                known_type_names().as_str(),
            ).concat(")"),
        ),
    }
}

/// The patterns of several types, one type after the other.
pub open spec fn expanded(names: Seq<Seq<char>>) -> Seq<Seq<char>>
    decreases names.len(),
{
    if names.len() == 0 {
        seq![]
    } else {
        let before = expanded(names.drop_last());
        match globs_of(all_types(), names.last()) {
            Some(globs) => before + globs,
            None => before,
        }
    }
}

/// The first name that is not that of a type, if there is one.
pub open spec fn first_unknown(names: Seq<Seq<char>>) -> Option<Seq<char>>
    decreases names.len(),
{
    if names.len() == 0 {
        None
    } else {
        match first_unknown(names.drop_last()) {
            Some(name) => Some(name),
            None => if globs_of(all_types(), names.last()) is None {
                Some(names.last())
            } else {
                None
            },
        }
    }
}

/// The compiled patterns are those of the texts.
pub open spec fn compiled_from(patterns: Seq<Pattern>, texts: Seq<Seq<char>>) -> bool {
    &&& patterns.len() == texts.len()
    &&& forall|i: int|
        0 <= i < patterns.len() ==> globs::glob_text(#[trigger] patterns[i]) == texts[i]
}

/// Compiles the patterns of several types. It fails only for a name that is
/// not that of a type.
pub fn expand_types(names: &Vec<String>) -> (r: Result<Vec<Pattern>, String>)
    ensures
        match r {
            Ok(ps) => first_unknown(names.deep_view()) is None && compiled_from(
                ps@,
                expanded(names.deep_view()),
            ),
            Err(e) => first_unknown(names.deep_view()) is Some && e@ == unknown_type(
                first_unknown(names.deep_view())->0,
            ),
        },
{
    let ghost all = names.deep_view();
    let mut out: Vec<Pattern> = Vec::new();
    let mut i: usize = 0;
    while i < names.len()
        invariant
            0 <= i <= names.len(),
            all == names.deep_view(),
            first_unknown(all.take(i as int)) is None,
            compiled_from(out@, expanded(all.take(i as int))),
        decreases names.len() - i,
    {
        proof {
            let next = all.take(i + 1);
            assert(next.drop_last() =~= all.take(i as int));
            assert(next.last() == names@[i as int]@);
        }
        match type_globs(names[i].as_str()) {
            None => {
                proof {
                    lemma_unknown_stays(all, i + 1);
                }
                return Err(
                    "unknown type '".to_string().concat(names[i].as_str()).concat(
                        "' (known types: ",
                    ).concat(known_type_names().as_str()).concat(")"),
                );
            },
            Some(texts) => {
                let ghost before = expanded(all.take(i as int));
                let mut j: usize = 0;
                while j < texts.len()
                    invariant
                        0 <= j <= texts.len(),
                        compiled_from(out@, before + texts.deep_view().take(j as int)),
                        forall|k: int|
                            0 <= k < texts@.len() ==> globs::is_simple_glob(
                                (#[trigger] texts@[k])@,
                            ),
                    decreases texts.len() - j,
                {
                    assert(globs::is_simple_glob(texts@[j as int]@));
                    if let Ok(p) = globs::compile(texts[j].as_str()) {
                        out.push(p);
                    }
                    proof {
                        let some = texts.deep_view();
                        assert(some.take(j + 1) =~= some.take(j as int).push(some[j as int]));
                        assert(before + some.take(j + 1) =~= (before + some.take(j as int)).push(
                            some[j as int],
                        ));
                    }
                    j += 1;
                }
                assert(texts.deep_view().take(texts.len() as int) =~= texts.deep_view());
            },
        }
        i += 1;
    }
    assert(all.take(names.len() as int) =~= all);
    Ok(out)
}

proof fn lemma_unknown_stays(names: Seq<Seq<char>>, n: int)
    requires
        0 <= n <= names.len(),
        first_unknown(names.take(n)) is Some,
    ensures
        first_unknown(names) == first_unknown(names.take(n)),
    decreases names.len(),
{
    if n == names.len() {
        assert(names.take(n) =~= names);
    } else {
        assert(names.drop_last().take(n) =~= names.take(n));
        lemma_unknown_stays(names.drop_last(), n);
    }
}

} // verus!
