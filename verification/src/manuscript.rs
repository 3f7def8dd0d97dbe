//! Manuscript assembly: the root document is produced from a template by
//! literal front-matter substitutions, an optional preface inserted before
//! the main-body marker, one include directive per chapter, and a document
//! end marker.

use vstd::prelude::*;
use crate::text::push_str_chars;
use crate::text::push_all;
use crate::text::subvec;
use crate::text::chars_of;
use crate::sanitize::occurs_at;
use crate::sanitize::occurs_at_exec;

verus! {

/// Caller-supplied front matter for the manuscript.
pub struct ManuscriptConfig {
    pub title: String,
    pub copyright: String,
    pub dedication_title: String,
    pub dedication_message: String,
    pub preface: Option<String>,
}

/// `s` from position `i` on, with every non-overlapping occurrence of
/// `pat` replaced by `rep`, scanning left to right.
pub open spec fn replace_from(s: Seq<char>, i: int, pat: Seq<char>, rep: Seq<char>) -> Seq<char>
    decreases s.len() - i when 0 <= i <= s.len() && pat.len() > 0
{
    if i >= s.len() {
        Seq::empty()
    } else if occurs_at(s, i, pat) {
        rep + replace_from(s, i + pat.len(), pat, rep)
    } else {
        seq![s[i]] + replace_from(s, i + 1, pat, rep)
    }
}

/// The whole of `s` with every occurrence of `pat` replaced by `rep`.
pub open spec fn replace_all_spec(s: Seq<char>, pat: Seq<char>, rep: Seq<char>) -> Seq<char> {
    replace_from(s, 0, pat, rep)
}

/// Replace every non-overlapping occurrence of `pat` in `v` by `rep`.
pub fn replace_all(v: &Vec<char>, pat: &Vec<char>, rep: &Vec<char>) -> (r: Vec<char>)
    requires
        pat@.len() > 0,
    ensures
        r@ == replace_all_spec(v@, pat@, rep@),
{
    let mut out: Vec<char> = Vec::new();
    proof {
        assert(Seq::<char>::empty() + replace_from(v@, 0, pat@, rep@)
            =~= replace_from(v@, 0, pat@, rep@));
    }
    let mut i: usize = 0;
    while i < v.len()
        invariant
            i <= v@.len(),
            pat@.len() > 0,
            replace_from(v@, 0, pat@, rep@) == out@ + replace_from(v@, i as int, pat@, rep@),
        decreases v.len() - i,
    {
        let matched = if pat.len() <= v.len() - i {
            occurs_at_exec(v, i, pat)
        } else {
            proof {
                assert(!occurs_at(v@, i as int, pat@));
            }
            false
        };
        let ghost before = out@;
        if matched {
            push_all(&mut out, rep);
            proof {
                assert(replace_from(v@, i as int, pat@, rep@)
                    == rep@ + replace_from(v@, i + pat@.len(), pat@, rep@));
                assert(out@ + replace_from(v@, i as int + pat@.len(), pat@, rep@)
                    =~= before + replace_from(v@, i as int, pat@, rep@));
            }
            i = i + pat.len();
        } else {
            out.push(v[i]);
            proof {
                assert(replace_from(v@, i as int, pat@, rep@)
                    == seq![v@[i as int]] + replace_from(v@, i + 1 as int, pat@, rep@));
                assert(out@ + replace_from(v@, i + 1 as int, pat@, rep@)
                    =~= before + replace_from(v@, i as int, pat@, rep@));
            }
            i = i + 1;
        }
    }
    proof {
        assert(replace_from(v@, v@.len() as int, pat@, rep@) =~= Seq::<char>::empty());
        assert(out@ + Seq::<char>::empty() =~= out@);
    }
    out
}

/// Index of the first occurrence of `pat` at or after `i`, or `-1`.
pub open spec fn find_from(s: Seq<char>, i: int, pat: Seq<char>) -> int
    decreases s.len() - i when 0 <= i
{
    if i + pat.len() > s.len() {
        -1
    } else if occurs_at(s, i, pat) {
        i
    } else {
        find_from(s, i + 1, pat)
    }
}

/// `s` with `ins` inserted immediately before the first occurrence of
/// `pat`; `s` unchanged when `pat` does not occur.
pub open spec fn insert_before_spec(s: Seq<char>, pat: Seq<char>, ins: Seq<char>) -> Seq<char> {
    let j = find_from(s, 0, pat);
    if j >= 0 {
        s.take(j) + ins + s.skip(j)
    } else {
        s
    }
}

/// Insert `ins` immediately before the first occurrence of `pat` in `v`.
pub fn insert_before(v: &Vec<char>, pat: &Vec<char>, ins: &Vec<char>) -> (r: Vec<char>)
    ensures
        r@ == insert_before_spec(v@, pat@, ins@),
{
    if pat.len() > v.len() {
        proof {
            assert(find_from(v@, 0, pat@) == -1);
        }
        let out = subvec(v, 0, v.len());
        proof {
            assert(out@ =~= v@);
        }
        return out;
    }
    let mut j: usize = 0;
    while j <= v.len() - pat.len()
        invariant
            pat@.len() <= v@.len(),
            j <= v@.len() + 1 - pat@.len(),
            find_from(v@, 0, pat@) == find_from(v@, j as int, pat@),
        decreases v@.len() + 1 - j,
    {
        if occurs_at_exec(v, j, pat) {
            proof {
                assert(find_from(v@, j as int, pat@) == j);
            }
            let mut out = subvec(v, 0, j);
            push_all(&mut out, ins);
            let tail = subvec(v, j, v.len());
            push_all(&mut out, &tail);
            proof {
                assert(v@.subrange(0, j as int) =~= v@.take(j as int));
                assert(v@.subrange(j as int, v@.len() as int) =~= v@.skip(j as int));
                assert(out@ =~= insert_before_spec(v@, pat@, ins@));
            }
            return out;
        }
        proof {
            assert(find_from(v@, j as int, pat@) == find_from(v@, j + 1 as int, pat@));
        }
        j = j + 1;
    }
    proof {
        assert(find_from(v@, j as int, pat@) == -1);
    }
    let out = subvec(v, 0, v.len());
    proof {
        assert(out@ =~= v@);
    }
    out
}

/// The dedication block built from the configured title and message.
pub open spec fn dedication_block_spec(t: Seq<char>, m: Seq<char>) -> Seq<char> {
    "\\begin{center}\n  \\textit{"@ + t + "}\n\\end{center}\n\\begin{center}\n  \\textit{"@ + m
        + "}\n\\end{center}"@
}

/// The placeholder dedication block the template carries.
pub open spec fn dedication_placeholder() -> Seq<char> {
    "\\begin{center}\n  \\textit{Dedicated to you.}\n\\end{center}"@
}

/// The preface section inserted before the main-body marker.
pub open spec fn preface_section_spec(p: Seq<char>) -> Seq<char> {
    "\\chapter*{Preface}\n"@ + p + "\n\\mainmatter\n"@
}

/// The include directives for the chapter files, in emission order.
pub open spec fn includes_spec(names: Seq<Seq<char>>, i: int) -> Seq<char>
    decreases names.len() - i when 0 <= i
{
    if i >= names.len() {
        Seq::empty()
    } else {
        "\\include{"@ + names[i] + "}\n"@ + includes_spec(names, i + 1)
    }
}

/// The root manuscript document: the template with the title, copyright and
/// dedication placeholders substituted, the preface section inserted before
/// the main-body marker when one is configured, then one include directive
/// per chapter and the document end marker.
pub open spec fn root_document_spec(
    template: Seq<char>,
    title: Seq<char>,
    copyright: Seq<char>,
    ded_title: Seq<char>,
    ded_message: Seq<char>,
    preface: Option<Seq<char>>,
    names: Seq<Seq<char>>,
) -> Seq<char> {
    let s1 = replace_all_spec(template, "iMessage Book"@, title);
    let s2 = replace_all_spec(s1, "ALL RIGHTS RESERVED"@, copyright);
    let s3 = replace_all_spec(s2, dedication_placeholder(), dedication_block_spec(
        ded_title,
        ded_message,
    ));
    let s4 = match preface {
        Some(p) => insert_before_spec(s3, "\\mainmatter"@, preface_section_spec(p)),
        None => s3,
    };
    s4 + includes_spec(names, 0) + "\\end{document}"@
}

/// Assemble the root manuscript document from the template, the configured
/// front matter, and the chapter keys in emission order.
pub fn build_root_document(template: &str, config: &ManuscriptConfig, chapter_names: &Vec<
    String,
>) -> (r: String)
    ensures
        r@ == root_document_spec(
            template@,
            config.title@,
            config.copyright@,
            config.dedication_title@,
            config.dedication_message@,
            match config.preface {
                Some(p) => Some(p@),
                None => None,
            },
            chapter_names@.map_values(|n: String| n@),
        ),
{
    let tv = chars_of(template);
    let p1 = chars_of("iMessage Book");
    let r1 = chars_of(config.title.as_str());
    proof {
        reveal_strlit("iMessage Book");
    }
    let s1 = replace_all(&tv, &p1, &r1);
    let p2 = chars_of("ALL RIGHTS RESERVED");
    let r2 = chars_of(config.copyright.as_str());
    proof {
        reveal_strlit("ALL RIGHTS RESERVED");
    }
    let s2 = replace_all(&s1, &p2, &r2);
    let p3 = chars_of("\\begin{center}\n  \\textit{Dedicated to you.}\n\\end{center}");
    let mut r3: Vec<char> = Vec::new();
    push_str_chars(&mut r3, "\\begin{center}\n  \\textit{");
    push_str_chars(&mut r3, config.dedication_title.as_str());
    push_str_chars(&mut r3, "}\n\\end{center}\n\\begin{center}\n  \\textit{");
    push_str_chars(&mut r3, config.dedication_message.as_str());
    push_str_chars(&mut r3, "}\n\\end{center}");
    proof {
        reveal_strlit("\\begin{center}\n  \\textit{Dedicated to you.}\n\\end{center}");
        assert(r3@ =~= dedication_block_spec(
            config.dedication_title@,
            config.dedication_message@,
        ));
    }
    let s3 = replace_all(&s2, &p3, &r3);
    let s4 = match &config.preface {
        Some(p) => {
            let mut ins: Vec<char> = Vec::new();
            push_str_chars(&mut ins, "\\chapter*{Preface}\n");
            push_str_chars(&mut ins, p.as_str());
            push_str_chars(&mut ins, "\n\\mainmatter\n");
            proof {
                assert(ins@ =~= preface_section_spec(p@));
            }
            let marker = chars_of("\\mainmatter");
            insert_before(&s3, &marker, &ins)
        }
        None => s3,
    };
    let mut out = s4;
    let ghost names_view = chapter_names@.map_values(|n: String| n@);
    let ghost body = out@;
    proof {
        assert(out@ + includes_spec(names_view, 0) =~= body + includes_spec(names_view, 0));
    }
    let mut i: usize = 0;
    while i < chapter_names.len()
        invariant
            i <= chapter_names@.len(),
            names_view == chapter_names@.map_values(|n: String| n@),
            body + includes_spec(names_view, 0) == out@ + includes_spec(names_view, i as int),
        decreases chapter_names.len() - i,
    {
        let ghost before = out@;
        push_str_chars(&mut out, "\\include{");
        push_str_chars(&mut out, chapter_names[i].as_str());
        push_str_chars(&mut out, "}\n");
        proof {
            assert(includes_spec(names_view, i as int)
                == "\\include{"@ + names_view[i as int] + "}\n"@
                    + includes_spec(names_view, i + 1 as int));
            assert(out@ + includes_spec(names_view, i + 1 as int)
                =~= before + includes_spec(names_view, i as int));
        }
        i = i + 1;
    }
    proof {
        assert(includes_spec(names_view, names_view.len() as int) =~= Seq::<char>::empty());
        assert(out@ =~= body + includes_spec(names_view, 0));
    }
    push_str_chars(&mut out, "\\end{document}");
    crate::text::string_from_chars(&out)
}

} // verus!
