//! The documentation that comes with the program.

use vstd::prelude::*;
use vstd::string::*;

use crate::text;
use crate::text::{chars_of, concat2, concat3, quoted, same_text};

verus! {

/// A document and the files that it refers to, each with its path.
pub struct Skill<'a> {
    pub name: &'a str,
    pub content: &'a str,
    pub references: Vec<(&'a str, &'a str)>,
}

/// The first document of a name.
pub open spec fn found(skills: Seq<Skill<'_>>, name: Seq<char>) -> Option<int>
    decreases skills.len(),
{
    if skills.len() == 0 {
        None
    } else {
        match found(skills.drop_last(), name) {
            Some(i) => Some(i),
            None => if skills.last().name@ == name {
                Some(skills.len() - 1)
            } else {
                None
            },
        }
    }
}

/// Looks for the document of a name.
pub fn find(skills: &Vec<Skill<'_>>, name: &str) -> (r: Option<usize>)
    ensures
        match found(skills@, name@) {
            Some(i) => r matches Some(k) && k == i && k < skills@.len(),
            None => r is None,
        },
{
    let mut i: usize = 0;
    assert(skills@.take(0).len() == 0);
    while i < skills.len()
        invariant
            i <= skills@.len(),
            found(skills@.take(i as int), name@) is None,
        decreases skills@.len() - i,
    {
        assert(skills@.take(i + 1).drop_last() =~= skills@.take(i as int));
        assert(skills@.take(i + 1).last() == skills@[i as int]);
        if same_text(skills[i].name, name) {
            proof {
                lemma_found_stays(skills@, i + 1, name@);
            }
            return Some(i);
        }
        i += 1;
    }
    assert(skills@.take(skills@.len() as int) =~= skills@);
    None
}

proof fn lemma_found_stays(skills: Seq<Skill<'_>>, n: int, name: Seq<char>)
    requires
        0 <= n <= skills.len(),
        found(skills.take(n), name) is Some,
    ensures
        found(skills, name) == found(skills.take(n), name),
    decreases skills.len() - n,
{
    if n < skills.len() {
        assert(skills.take(n + 1).drop_last() =~= skills.take(n));
        lemma_found_stays(skills, n + 1, name);
    } else {
        assert(skills.take(n) =~= skills);
    }
}

/// A text with a line feed at its end, if it has none.
pub open spec fn closed_text(s: Seq<char>) -> Seq<char> {
    if s.len() > 0 && s.last() == '\n' {
        s
    } else {
        s + "\n"@
    }
}

/// Appends a text, and a line feed if it does not end with one.
fn append_closed(out: &mut String, s: &str)
    ensures
        final(out)@ == old(out)@ + closed_text(s@),
{
    let chars = chars_of(s);
    let n: usize = chars.len();
    out.append(s);
    if !(n > 0 && chars[n - 1] == '\n') {
        out.append("\n");
        assert(out@ =~= old(out)@ + (s@ + "\n"@));
    }
}

/// The names of the documents, one per line.
pub open spec fn name_list(skills: Seq<Skill<'_>>) -> Seq<char>
    decreases skills.len(),
{
    if skills.len() == 0 {
        Seq::empty()
    } else {
        name_list(skills.drop_last()) + skills.last().name@ + "\n"@
    }
}

/// Lists the documents.
pub fn run_list(skills: &Vec<Skill<'_>>) -> (r: String)
    ensures
        r@ == name_list(skills@),
{
    let mut out = String::new();
    let mut i: usize = 0;
    assert(out@ =~= name_list(skills@.take(0)));
    while i < skills.len()
        invariant
            i <= skills@.len(),
            out@ == name_list(skills@.take(i as int)),
        decreases skills@.len() - i,
    {
        assert(skills@.take(i + 1).drop_last() =~= skills@.take(i as int));
        assert(skills@.take(i + 1).last() == skills@[i as int]);
        out.append(skills[i].name);
        out.append("\n");
        i += 1;
    }
    assert(skills@.take(skills@.len() as int) =~= skills@);
    out
}

/// The names of the documents with a comma between each two.
pub open spec fn names_in_line(skills: Seq<Skill<'_>>) -> Seq<char>
    decreases skills.len(),
{
    if skills.len() == 0 {
        Seq::empty()
    } else if skills.len() == 1 {
        skills[0].name@
    } else {
        names_in_line(skills.drop_last()) + ", "@ + skills.last().name@
    }
}

/// The names of the documents on one line.
fn join_names(skills: &Vec<Skill<'_>>) -> (r: String)
    ensures
        r@ == names_in_line(skills@),
{
    let mut out = String::new();
    let mut i: usize = 0;
    assert(out@ =~= names_in_line(skills@.take(0)));
    while i < skills.len()
        invariant
            i <= skills@.len(),
            out@ == names_in_line(skills@.take(i as int)),
        decreases skills@.len() - i,
    {
        assert(skills@.take(i + 1).drop_last() =~= skills@.take(i as int));
        assert(skills@.take(i + 1).last() == skills@[i as int]);
        if i > 0 {
            out.append(", ");
            out.append(skills[i].name);
        } else {
            out = skills[i].name.to_owned();
        }
        i += 1;
    }
    assert(skills@.take(skills@.len() as int) =~= skills@);
    out
}

/// The files that a document refers to, each under its path.
pub open spec fn reference_text(refs: Seq<(&str, &str)>) -> Seq<char>
    decreases refs.len(),
{
    if refs.len() == 0 {
        Seq::empty()
    } else {
        reference_text(refs.drop_last()) + "\n---\n# "@ + refs.last().0@ + "\n\n"@ + closed_text(
            refs.last().1@,
        )
    }
}

/// What is shown of a document, with the files that it refers to if asked for.
pub open spec fn skill_text(s: Skill<'_>, full: bool) -> Seq<char> {
    if full {
        closed_text(s.content@) + reference_text(s.references@)
    } else {
        closed_text(s.content@)
    }
}

/// What is shown of a document, and a notice where files that it refers to were
/// asked for and there are none.
pub struct SkillPage {
    pub text: String,
    pub notice: Option<String>,
}

/// Shows the document of a name, with the files that it refers to if asked for.
pub fn run_get(skills: &Vec<Skill<'_>>, name: &str, full: bool) -> (r: Result<SkillPage, String>)
    ensures
        match found(skills@, name@) {
            None => r matches Err(t) && t@ == "skills: unknown skill "@ + text::debug_text(name@)
                + ". Available: "@ + names_in_line(skills@),
            Some(i) => r matches Ok(p) && p.text@ == skill_text(skills@[i], full) && if full
                && skills@[i].references@.len() == 0 {
                p.notice matches Some(t) && t@
                    == "skills: --full requested but no reference files are bundled with this build of "@
                    + name@
            } else {
                p.notice is None
            },
        },
{
    let i: usize = match find(skills, name) {
        Some(i) => i,
        None => {
            let mut out = concat3(
                "skills: unknown skill ",
                quoted(name).as_str(),
                ". Available: ",
            );
            out.append(join_names(skills).as_str());
            return Err(out);
        },
    };
    let skill = &skills[i];
    let mut out = String::new();
    append_closed(&mut out, skill.content);
    assert(out@ =~= closed_text(skill.content@));
    let mut notice: Option<String> = None;
    if full {
        let ghost refs = skill.references@;
        let mut k: usize = 0;
        assert(refs.take(0).len() == 0);
        assert(closed_text(skill.content@) + Seq::<char>::empty() =~= closed_text(skill.content@));
        while k < skill.references.len()
            invariant
                k <= refs.len(),
                refs == skill.references@,
                out@ == closed_text(skill.content@) + reference_text(refs.take(k as int)),
            decreases refs.len() - k,
        {
            assert(refs.take(k + 1).drop_last() =~= refs.take(k as int));
            assert(refs.take(k + 1).last() == refs[k as int]);
            let (path, body) = skill.references[k];
            out.append("\n---\n# ");
            out.append(path);
            out.append("\n\n");
            append_closed(&mut out, body);
            assert(out@ =~= closed_text(skill.content@) + reference_text(refs.take(k + 1)));
            k += 1;
        }
        assert(refs.take(refs.len() as int) =~= refs);
        if skill.references.len() == 0 {
            notice = Some(
                concat2(
                    "skills: --full requested but no reference files are bundled with this build of ",
                    name,
                ),
            );
        }
    }
    Ok(SkillPage { text: out, notice })
}

/// The skill found is the first one of that name; none is found only where no skill
/// has it.
pub proof fn the_first_of_the_name_is_found(skills: Seq<Skill<'_>>, name: Seq<char>)
    ensures
        found(skills, name) is None <==> forall|i: int|
            0 <= i < skills.len() ==> (#[trigger] skills[i]).name@ != name,
        found(skills, name) is Some ==> 0 <= found(skills, name)->0 < skills.len()
            && skills[found(skills, name)->0].name@ == name && forall|i: int|
            0 <= i < found(skills, name)->0 ==> (#[trigger] skills[i]).name@ != name,
    decreases skills.len(),
{
    if skills.len() > 0 {
        let front = skills.drop_last();
        the_first_of_the_name_is_found(front, name);
        assert(forall|i: int| 0 <= i < front.len() ==> #[trigger] skills[i] == front[i]);
        if found(front, name) is Some {
            assert(skills[found(front, name)->0].name@ == name);
        }
    }
}

/// The lists of names have every name, in order: one on a line, or all on one line
/// with commas between.
pub proof fn every_skill_is_listed(skills: Seq<Skill<'_>>, s: Skill<'_>)
    ensures
        name_list(Seq::empty()).len() == 0,
        name_list(skills.push(s)) == name_list(skills) + s.name@ + "\n"@,
        names_in_line(seq![s]) == s.name@,
        skills.len() > 0 ==> names_in_line(skills.push(s)) == names_in_line(skills) + ", "@
            + s.name@,
{
    assert(skills.push(s).drop_last() =~= skills);
}

/// The page of a skill is its text, ended with a line end where it had none, and with
/// `--full` all its references, each with its name and its text.
pub proof fn a_page_has_every_reference(
    s: Skill<'_>,
    t: Seq<char>,
    refs: Seq<(&str, &str)>,
    r: (&str, &str),
)
    ensures
        closed_text(t + "\n"@) == t + "\n"@,
        t.len() == 0 || t.last() != '\n' ==> closed_text(t) == t + "\n"@,
        skill_text(s, false) == closed_text(s.content@),
        skill_text(s, true) == closed_text(s.content@) + reference_text(s.references@),
        reference_text(Seq::empty()).len() == 0,
        reference_text(refs.push(r)) == reference_text(refs) + "\n---\n# "@ + r.0@ + "\n\n"@
            + closed_text(r.1@),
{
    reveal_strlit("\n");
    assert((t + "\n"@).last() == '\n');
    assert(refs.push(r).drop_last() =~= refs);
}

} // verus!
