//! The languages a project can be written in, their short codes, and the
//! sandbox image chosen for each.
use vstd::prelude::*;
use vstd::string::StringExecFns;

verus! {

#[derive(Clone, Copy, Debug, PartialEq, Eq, Structural)]
pub enum ProjectLang {
    Python,
    JavaScript,
    TypeScript,
    Rust,
    C,
    CPlusPlus,
    CSharp,
    Bash,
    Java,
}

/// The image that sandboxes start from. Every language uses it until a
/// per-language mapping is settled.
pub const DEFAULT_IMAGE: &'static str = "python:3";

pub open spec fn code_of(l: ProjectLang) -> Seq<char> {
    match l {
        ProjectLang::Python => "py"@,
        ProjectLang::JavaScript => "js"@,
        ProjectLang::TypeScript => "ts"@,
        ProjectLang::Rust => "rs"@,
        ProjectLang::C => "c"@,
        ProjectLang::CPlusPlus => "cpp"@,
        ProjectLang::CSharp => "cs"@,
        ProjectLang::Bash => "sh"@,
        ProjectLang::Java => "java"@,
    }
}

fn same_text(a: &str, b: &'static str) -> (r: bool)
    ensures
        r == (a@ == b@),
{
    a.to_owned().eq(&String::from_str(b))
}

impl ProjectLang {
    /// The short code of the language ("py", "js", ...).
    pub fn code(self) -> (r: &'static str)
        ensures
            r@ == code_of(self),
    {
        match self {
            ProjectLang::Python => "py",
            ProjectLang::JavaScript => "js",
            ProjectLang::TypeScript => "ts",
            ProjectLang::Rust => "rs",
            ProjectLang::C => "c",
            ProjectLang::CPlusPlus => "cpp",
            ProjectLang::CSharp => "cs",
            ProjectLang::Bash => "sh",
            ProjectLang::Java => "java",
        }
    }

    /// The language whose short code is `code`, if any.
    pub fn parse(code: &str) -> (r: Option<ProjectLang>)
        ensures
            r matches Some(l) ==> code_of(l) == code@,
            r is None ==> forall|l: ProjectLang| code_of(l) != code@,
    {
        if same_text(code, "py") {
            Some(ProjectLang::Python)
        } else if same_text(code, "js") {
            Some(ProjectLang::JavaScript)
        } else if same_text(code, "ts") {
            Some(ProjectLang::TypeScript)
        } else if same_text(code, "rs") {
            Some(ProjectLang::Rust)
        } else if same_text(code, "c") {
            Some(ProjectLang::C)
        } else if same_text(code, "cpp") {
            Some(ProjectLang::CPlusPlus)
        } else if same_text(code, "cs") {
            Some(ProjectLang::CSharp)
        } else if same_text(code, "sh") {
            Some(ProjectLang::Bash)
        } else if same_text(code, "java") {
            Some(ProjectLang::Java)
        } else {
            None
        }
    }

    /// The name of the file a new project of this language starts with.
    pub fn initial_file_name(self) -> (r: &'static str)
        ensures
            r@ == (match self {
                ProjectLang::Python => "main.py"@,
                ProjectLang::JavaScript => "main.js"@,
                ProjectLang::TypeScript => "main.ts"@,
                ProjectLang::C => "main.c"@,
                ProjectLang::CPlusPlus => "main.cpp"@,
                ProjectLang::Bash => "main.sh"@,
                ProjectLang::Java => "main.java"@,
                ProjectLang::Rust | ProjectLang::CSharp => "README.md"@,
            }),
    {
        match self {
            ProjectLang::Python => "main.py",
            ProjectLang::JavaScript => "main.js",
            ProjectLang::TypeScript => "main.ts",
            ProjectLang::C => "main.c",
            ProjectLang::CPlusPlus => "main.cpp",
            ProjectLang::Bash => "main.sh",
            ProjectLang::Java => "main.java",
            ProjectLang::Rust | ProjectLang::CSharp => "README.md",
        }
    }
}

/// Which image a sandbox starts from: the image set for the project's
/// language, else the default image.
#[derive(Clone, Debug)]
pub struct ImagePolicy {
    default_image: String,
    overrides: Vec<(ProjectLang, String)>,
}

impl ImagePolicy {
    pub closed spec fn default_view(&self) -> Seq<char> {
        self.default_image@
    }

    /// The image chosen for `l`.
    pub closed spec fn image_of(&self, l: ProjectLang) -> Seq<char> {
        if exists|i: int| 0 <= i < self.overrides@.len() && self.overrides@[i].0 == l {
            self.overrides@[choose|i: int|
                0 <= i < self.overrides@.len() && self.overrides@[i].0 == l].1@
        } else {
            self.default_image@
        }
    }

    pub closed spec fn wf(&self) -> bool {
        forall|i: int, j: int|
            0 <= i < j < self.overrides@.len() ==> self.overrides@[i].0 != self.overrides@[j].0
    }

    /// Every language uses `default_image`.
    pub fn new(default_image: String) -> (r: Self)
        ensures
            r.wf(),
            r.default_view() == default_image@,
            forall|l: ProjectLang| r.image_of(l) == default_image@,
    {
        ImagePolicy { default_image, overrides: Vec::new() }
    }

    /// Every language uses `DEFAULT_IMAGE`.
    pub fn standard() -> (r: Self)
        ensures
            r.wf(),
            forall|l: ProjectLang| r.image_of(l) == DEFAULT_IMAGE@,
    {
        ImagePolicy::new(String::from_str(DEFAULT_IMAGE))
    }

    /// Projects in `lang` now use `image`; other languages keep theirs.
    pub fn set(&mut self, lang: ProjectLang, image: String)
        requires
            old(self).wf(),
        ensures
            final(self).wf(),
            final(self).default_view() == old(self).default_view(),
            final(self).image_of(lang) == image@,
            forall|l: ProjectLang| l != lang ==> final(self).image_of(l) == old(self).image_of(l),
    {
        let ghost before = self.overrides@;
        let mut i: usize = 0;
        while i < self.overrides.len()
            invariant
                i <= self.overrides@.len(),
                self.overrides@ == before,
                forall|k: int| 0 <= k < i ==> self.overrides@[k].0 != lang,
            ensures
                i <= self.overrides@.len(),
                self.overrides@ == before,
                forall|k: int| 0 <= k < i ==> self.overrides@[k].0 != lang,
                i < self.overrides@.len() ==> self.overrides@[i as int].0 == lang,
            decreases self.overrides@.len() - i,
        {
            if self.overrides[i].0 == lang {
                break;
            }
            i = i + 1;
        }
        if i < self.overrides.len() {
            self.overrides.remove(i);
        }
        let ghost rest = self.overrides@;
        self.overrides.push((lang, image));
        proof {
            let o = self.overrides@;
            let n = o.len() - 1;
            assert(o[n] == (lang, image));
            assert forall|k: int| 0 <= k < n implies o[k].0 != lang by {
                if i < before.len() {
                    if k < i {
                    } else {
                        assert(o[k] == before[k + 1]);
                        assert(before[i as int].0 == lang);
                        assert(i < k + 1);
                    }
                }
            }
            assert(self.wf()) by {
                assert forall|a: int, b: int| 0 <= a < b < o.len() implies o[a].0 != o[b].0 by {
                    if b < n {
                        if i < before.len() {
                            let ra = if a < i { a } else { a + 1 };
                            let rb = if b < i { b } else { b + 1 };
                            assert(o[a] == before[ra]);
                            assert(o[b] == before[rb]);
                        }
                    }
                }
            }
            let c = choose|k: int| 0 <= k < o.len() && o[k].0 == lang;
            assert(o[n].0 == lang);
            if c != n {
                assert(o[c].0 != lang);
            }
            assert forall|l: ProjectLang| l != lang implies self.image_of(l) == old(self).image_of(l)
                by {
                let hit_new = exists|k: int| 0 <= k < o.len() && o[k].0 == l;
                let hit_old = exists|k: int| 0 <= k < before.len() && before[k].0 == l;
                if hit_old {
                    let ko = choose|k: int| 0 <= k < before.len() && before[k].0 == l;
                    assert(ko != i);
                    let kn = if i < before.len() && ko > i { ko - 1 } else { ko };
                    assert(o[kn] == before[ko]);
                    assert(hit_new);
                    let cn = choose|k: int| 0 <= k < o.len() && o[k].0 == l;
                    assert(cn != n);
                    let rc = if i < before.len() && cn >= i { cn + 1 } else { cn };
                    assert(o[cn] == before[rc]);
                    if rc != ko {
                        if rc < ko {
                            assert(before[rc].0 != before[ko].0);
                        } else {
                            assert(before[ko].0 != before[rc].0);
                        }
                    }
                } else {
                    if hit_new {
                        let cn = choose|k: int| 0 <= k < o.len() && o[k].0 == l;
                        assert(cn != n);
                        let rc = if i < before.len() && cn >= i { cn + 1 } else { cn };
                        assert(o[cn] == before[rc]);
                    }
                }
            }
        }
    }

    /// The image for projects in `lang`.
    pub fn image_for(&self, lang: ProjectLang) -> (r: &String)
        requires
            self.wf(),
        ensures
            r@ == self.image_of(lang),
    {
        let mut i: usize = 0;
        while i < self.overrides.len()
            invariant
                i <= self.overrides@.len(),
                self.wf(),
                forall|k: int| 0 <= k < i ==> self.overrides@[k].0 != lang,
            decreases self.overrides@.len() - i,
        {
            if self.overrides[i].0 == lang {
                proof {
                    let o = self.overrides@;
                    let c = choose|k: int| 0 <= k < o.len() && o[k].0 == lang;
                    if c != i {
                        if c < i {
                        } else {
                            assert(o[i as int].0 != o[c].0);
                        }
                    }
                }
                return &self.overrides[i].1;
            }
            i = i + 1;
        }
        &self.default_image
    }
}

/// No two languages share a code, so reading a code back gives the language.
pub proof fn lemma_code_determines_language(l: ProjectLang)
    ensures
        forall|m: ProjectLang| code_of(m) == code_of(l) ==> m == l,
{
    reveal_strlit("py");
    reveal_strlit("js");
    reveal_strlit("ts");
    reveal_strlit("rs");
    reveal_strlit("c");
    reveal_strlit("cpp");
    reveal_strlit("cs");
    reveal_strlit("sh");
    reveal_strlit("java");
    assert forall|m: ProjectLang| code_of(m) == code_of(l) implies m == l by {
        if m != l {
            assert(code_of(m).len() != code_of(l).len() || code_of(m)[0] != code_of(l)[0]
                || code_of(m)[1] != code_of(l)[1]);
        }
    }
}

} // verus!
