//! The branch store: create, look up, delete, move heads, diff and merge.
//!
//! The manager holds the branches in memory; what it decides is what a store
//! on disk has to hold afterwards.

use vstd::prelude::*;
use crate::select::{in_prefix, lemma_prefix_all, lemma_prefix_step};
use crate::branch::branch::{classify, names2, names3, opt_versions, Branch, BranchDiff, BranchModel, TableDiff};
use crate::branch::error::BranchError;
use crate::strmap::{lemma_sorted_distinct, sorted_strict, StrMap};
use crate::text::{chars_to_string, opt_text, str_chars, str_eq};

verus! {

/// Whether `c` is a letter or a digit, as Unicode classes them: the answer
/// of `char::is_alphanumeric`.
pub uninterp spec fn alphanumeric(c: char) -> bool;

/// `char::is_alphanumeric`: true for the characters of the Unicode classes
/// Alphabetic, Nd, Nl and No.
pub assume_specification[ char::is_alphanumeric ](c: char) -> (r: bool)
    ensures
        r == alphanumeric(c),
;

/// The rule that a branch name breaks.
#[derive(Debug, Clone, Copy, PartialEq, Eq, Structural)]
pub enum NameProblem {
    Empty,
    LeadingUnderscore,
    InvalidCharacter,
    DoubleSlash,
    DoubleUnderscore,
}

/// A character that may stand in a branch name.
pub open spec fn allowed_char(c: char) -> bool {
    alphanumeric(c) || c == '-' || c == '_' || c == '/'
}

/// `a` directly followed by `b` occurs in `s`.
pub open spec fn has_pair(s: Seq<char>, a: char, b: char) -> bool {
    exists|i: int| 0 <= i < s.len() - 1 && #[trigger] s[i] == a && s[i + 1] == b
}

/// The first naming rule that `name` breaks, in the order in which the rules
/// are checked; `None` for a valid name.
pub open spec fn name_problem(name: Seq<char>) -> Option<NameProblem> {
    if name.len() == 0 {
        Some(NameProblem::Empty)
    } else if name[0] == '_' {
        Some(NameProblem::LeadingUnderscore)
    } else if exists|i: int| 0 <= i < name.len() && !allowed_char(name[i]) {
        Some(NameProblem::InvalidCharacter)
    } else if has_pair(name, '/', '/') {
        Some(NameProblem::DoubleSlash)
    } else if has_pair(name, '_', '_') {
        Some(NameProblem::DoubleUnderscore)
    } else {
        None
    }
}

/// The message that reports a broken naming rule.
pub open spec fn problem_text(p: NameProblem, name: Seq<char>) -> Seq<char> {
    match p {
        NameProblem::Empty => "Branch name cannot be empty"@,
        NameProblem::LeadingUnderscore => "Branch name cannot start with underscore"@,
        NameProblem::InvalidCharacter => "Branch name contains invalid characters: "@ + name,
        NameProblem::DoubleSlash => "Branch name cannot contain double slashes"@,
        NameProblem::DoubleUnderscore => "Branch name cannot contain double underscores (reserved for path encoding)"@,
    }
}

/// The file stem under which a branch is stored: each `/` becomes `__`.
pub open spec fn encode_name(name: Seq<char>) -> Seq<char>
    decreases name.len(),
{
    if name.len() == 0 {
        Seq::empty()
    } else if name[0] == '/' {
        seq!['_', '_'] + encode_name(name.drop_first())
    } else {
        seq![name[0]] + encode_name(name.drop_first())
    }
}

/// The branch name that a file stem stands for: each `__`, read from the
/// left, becomes `/`.
pub open spec fn decode_stem(stem: Seq<char>) -> Seq<char>
    decreases stem.len(),
{
    if stem.len() == 0 {
        Seq::empty()
    } else if stem.len() >= 2 && stem[0] == '_' && stem[1] == '_' {
        seq!['/'] + decode_stem(stem.skip(2))
    } else {
        seq![stem[0]] + decode_stem(stem.drop_first())
    }
}

/// No underscore of `name` is directly followed by an underscore or a slash.
pub open spec fn underscores_apart(name: Seq<char>) -> bool {
    !has_pair(name, '_', '_') && !has_pair(name, '_', '/')
}

/// A name in which no underscore is directly followed by an underscore or a
/// slash comes back unchanged from encoding and decoding.
pub proof fn law_name_round_trip(name: Seq<char>)
    requires
        underscores_apart(name),
    ensures
        decode_stem(encode_name(name)) == name,
    decreases name.len(),
{
    if name.len() > 0 {
        let rest = name.drop_first();
        assert(underscores_apart(rest)) by {
            if has_pair(rest, '_', '_') {
                let i = choose|i: int| 0 <= i < rest.len() - 1 && #[trigger] rest[i] == '_' && rest[i + 1] == '_';
                assert(name[i + 1] == '_' && name[i + 2] == '_');
            }
            if has_pair(rest, '_', '/') {
                let i = choose|i: int| 0 <= i < rest.len() - 1 && #[trigger] rest[i] == '_' && rest[i + 1] == '/';
                assert(name[i + 1] == '_' && name[i + 2] == '/');
            }
        }
        law_name_round_trip(rest);
        let e = encode_name(name);
        let er = encode_name(rest);
        if name[0] == '/' {
            assert(e.skip(2) =~= er);
            assert(name =~= seq!['/'] + rest);
        } else {
            assert(e.drop_first() =~= er);
            assert(name =~= seq![name[0]] + rest);
            if name[0] == '_' && rest.len() > 0 {
                assert(name[0] == '_' && name[1] == rest[0]);
                assert(rest[0] != '_' && rest[0] != '/') by {
                    if rest[0] == '_' || rest[0] == '/' {
                        let z: int = 0;
                        assert(0 <= z < name.len() - 1 && name[z] == '_' && name[z + 1] == rest[0]);
                    }
                }
                assert(er[0] == rest[0]);
                assert(e[1] == er[0]);
            }
            if name[0] == '_' && rest.len() == 0 {
                assert(er.len() == 0);
                assert(e.len() == 1);
            }
        }
    } else {
        assert(encode_name(name) =~= Seq::empty());
    }
}

/// The head after merging `src` into `tgt` three-way against `base`: tables
/// that only the source changed or added take the source version; all
/// others keep the target's.
pub open spec fn three_way_head(
    src: Map<Seq<char>, u64>,
    tgt: Map<Seq<char>, u64>,
    base: Map<Seq<char>, u64>,
) -> Map<Seq<char>, u64> {
    Map::new(
        |t: Seq<char>| tgt.contains_key(t) || src.contains_key(t),
        |t: Seq<char>|
            if classify(src, tgt, Some(base), t) == TableDiff::SourceOnly || classify(
                src,
                tgt,
                Some(base),
                t,
            ) == TableDiff::AddedInSource {
                src[t]
            } else {
                tgt[t]
            },
    )
}

/// The version of `t` in `m`, 0 where `m` has no such table.
pub open spec fn version_or_zero(m: Map<Seq<char>, u64>, t: Seq<char>) -> u64 {
    if m.contains_key(t) {
        m[t]
    } else {
        0
    }
}

/// The head after a forward-only merge of `src` into `tgt`: a source version
/// is taken only where it is strictly greater than the target's.
pub open spec fn forward_head(src: Map<Seq<char>, u64>, tgt: Map<Seq<char>, u64>) -> Map<Seq<char>, u64> {
    Map::new(
        |t: Seq<char>| tgt.contains_key(t) || (src.contains_key(t) && src[t] > 0),
        |t: Seq<char>|
            if src.contains_key(t) && src[t] > version_or_zero(tgt, t) {
                src[t]
            } else {
                tgt[t]
            },
    )
}

/// Whether some table is in true conflict.
pub open spec fn has_true_conflict(
    src: Map<Seq<char>, u64>,
    tgt: Map<Seq<char>, u64>,
    base: Option<Map<Seq<char>, u64>>,
) -> bool {
    exists|t: Seq<char>| classify(src, tgt, base, t) == TableDiff::Conflict
}

/// The head of the target after merging a source into it: three-way where
/// the source has a fork point, forward-only where it has none.
pub open spec fn merged_head(source: BranchModel, target: BranchModel) -> Map<Seq<char>, u64> {
    match source.fork_point {
        Some(base) => three_way_head(source.head, target.head, base),
        None => forward_head(source.head, target.head),
    }
}

/// Merge monotonicity. A forward-only merge keeps every table of the target
/// and lowers no version.
pub proof fn law_forward_merge_never_lowers(src: Map<Seq<char>, u64>, tgt: Map<Seq<char>, u64>, t: Seq<char>)
    requires
        tgt.contains_key(t),
    ensures
        forward_head(src, tgt).contains_key(t),
        forward_head(src, tgt)[t] >= tgt[t],
{
}

/// A three-way merge keeps every table of the target, and changes a target
/// version only where the target still stood at the fork point.
pub proof fn law_three_way_keeps_target_changes(
    src: Map<Seq<char>, u64>,
    tgt: Map<Seq<char>, u64>,
    base: Map<Seq<char>, u64>,
    t: Seq<char>,
)
    requires
        tgt.contains_key(t),
    ensures
        three_way_head(src, tgt, base).contains_key(t),
        three_way_head(src, tgt, base)[t] != tgt[t] ==> base.contains_key(t) && tgt[t] == base[t],
{
}

/// The branch store.
#[derive(Debug)]
pub struct BranchManager {
    branches: StrMap<Branch>,
    default_branch: Option<String>,
}

impl BranchManager {
    /// The branches, by name.
    pub closed spec fn models(&self) -> Map<Seq<char>, BranchModel> {
        Map::new(|k: Seq<char>| self.branches@.contains_key(k), |k: Seq<char>| self.branches@[k]@)
    }

    /// The name of the default branch, if one is set.
    pub closed spec fn default_name(&self) -> Option<Seq<char>> {
        opt_text(self.default_branch)
    }

    /// Every branch is stored under its own name.
    pub closed spec fn wf(&self) -> bool {
        &&& self.branches.wf()
        &&& forall|k: Seq<char>| self.branches@.contains_key(k) ==> (#[trigger] self.branches@[k]).name@ == k
    }

    /// A store that holds the root branch `main`, with an empty head, as its
    /// default branch.
    pub fn new() -> (m: Self)
        ensures
            m.wf(),
            m.models().dom() == set!["main"@],
            m.models()["main"@].head == Map::<Seq<char>, u64>::empty(),
            m.models()["main"@].name == "main"@,
            m.models()["main"@].fork_point is None,
            m.models()["main"@].parent_branch is None,
            m.models()["main"@].description is None,
            m.default_name() == Some("main"@),
    {
        let mut branches: StrMap<Branch> = StrMap::new();
        let main = Branch::new("main", StrMap::new());
        branches.insert("main".to_owned(), main);
        let m = BranchManager { branches, default_branch: Some("main".to_owned()) };
        proof {
            use_type_invariant(&m.branches);
            assert(m.models().dom() =~= set!["main"@]);
        }
        m
    }

    /// A store that holds the given branches, each under its own name; a
    /// later branch replaces an earlier one of the same name. With no branch
    /// given, the store is the one that `new` makes.
    pub fn open(branches: Vec<Branch>, default_branch: Option<String>) -> (m: Self)
        ensures
            m.wf(),
            branches.len() == 0 ==> m.models().dom() == set!["main"@] && m.default_name() == Some("main"@),
            branches.len() > 0 ==> m.default_name() == opt_text(default_branch),
            branches.len() > 0 ==> forall|k: Seq<char>| m.models().contains_key(k) <==> exists|i: int| 0 <= i < branches.len() && branches[i].name@ == k,
            branches.len() > 0 ==> forall|i: int| 0 <= i < branches.len() && is_last_of_name(branches@, i) ==> m.models()[(#[trigger] branches[i]).name@] == branches[i]@,
    {
        if branches.len() == 0 {
            return Self::new();
        }
        let mut map: StrMap<Branch> = StrMap::new();
        let mut i: usize = 0;
        while i < branches.len()
            invariant
                i <= branches.len(),
                forall|k: Seq<char>| map@.contains_key(k) ==> (#[trigger] map@[k]).name@ == k,
                forall|k: Seq<char>| map@.contains_key(k) <==> exists|j: int| 0 <= j < i && branches[j].name@ == k,
                forall|j: int| 0 <= j < i && is_last_of_name(branches@.subrange(0, i as int), j) ==> map@[(#[trigger] branches[j]).name@]@ == branches[j]@,
            decreases branches.len() - i,
        {
            let b = branches[i].clone();
            let ghost before = map@;
            map.insert(b.name.clone(), b);
            proof {
                assert forall|k: Seq<char>| map@.contains_key(k) <==> exists|j: int| 0 <= j < i + 1 && branches[j].name@ == k by {
                    if k == branches[i as int].name@ {
                        assert(0 <= i < i + 1 && branches[i as int].name@ == k);
                    }
                    if before.contains_key(k) {
                        let j = choose|j: int| 0 <= j < i && branches[j].name@ == k;
                        assert(0 <= j < i + 1 && branches[j].name@ == k);
                    }
                }
                let longer = branches@.subrange(0, i + 1);
                let shorter = branches@.subrange(0, i as int);
                assert forall|j: int| 0 <= j < i + 1 && is_last_of_name(longer, j) implies map@[(#[trigger] branches[j]).name@]@ == branches[j]@ by {
                    if j < i {
                        assert(longer[i as int].name@ != longer[j].name@);
                        assert forall|l: int| j < l < shorter.len() implies (#[trigger] shorter[l]).name@ != shorter[j].name@ by {
                            assert(longer[l].name@ != longer[j].name@);
                        }
                        assert(is_last_of_name(shorter, j));
                    }
                }
            }
            i += 1;
        }
        assert(branches@.subrange(0, branches.len() as int) =~= branches@);
        let m = BranchManager { branches: map, default_branch };
        proof {
            use_type_invariant(&m.branches);
        }
        m
    }

    /// Checks `name` against the naming rules, in this order: not empty, no
    /// leading underscore, only letters, digits, `-`, `_` and `/`, no `//`,
    /// no `__`.
    pub fn validate_branch_name(name: &str) -> (r: Result<(), BranchError>)
        ensures
            r is Ok <==> name_problem(name@) is None,
            r is Err ==> (r->Err_0 matches BranchError::InvalidBranchName(msg) && msg@ == problem_text(
                name_problem(name@)->0,
                name@,
            )),
    {
        let chars = str_chars(name);
        if chars.len() == 0 {
            return Err(BranchError::InvalidBranchName("Branch name cannot be empty".to_owned()));
        }
        if chars[0] == '_' {
            return Err(
                BranchError::InvalidBranchName("Branch name cannot start with underscore".to_owned()),
            );
        }
        let mut i: usize = 0;
        while i < chars.len()
            invariant
                i <= chars.len(),
                chars@ == name@,
                chars@.len() > 0,
                chars@[0] != '_',
                forall|j: int| 0 <= j < i ==> allowed_char(chars@[j]),
            decreases chars.len() - i,
        {
            let c = chars[i];
            if !(c.is_alphanumeric() || c == '-' || c == '_' || c == '/') {
                assert(!allowed_char(name@[i as int]));
                let mut msg = "Branch name contains invalid characters: ".to_owned();
                msg.append(name);
                return Err(BranchError::InvalidBranchName(msg));
            }
            i += 1;
        }
        if contains_pair(&chars, '/', '/') {
            return Err(
                BranchError::InvalidBranchName("Branch name cannot contain double slashes".to_owned()),
            );
        }
        if contains_pair(&chars, '_', '_') {
            return Err(
                BranchError::InvalidBranchName(
                    "Branch name cannot contain double underscores (reserved for path encoding)".to_owned(),
                ),
            );
        }
        Ok(())
    }

    /// The file stem under which the branch `name` is stored.
    pub fn branch_file_stem(name: &str) -> (r: String)
        ensures
            r@ == encode_name(name@),
    {
        let chars = str_chars(name);
        let mut out: Vec<char> = Vec::new();
        let mut i: usize = chars.len();
        while i > 0
            invariant
                i <= chars.len(),
                chars@ == name@,
                out@ == encode_name(chars@.skip(i as int)).reverse(),
            decreases i,
        {
            i -= 1;
            let ghost tail = chars@.skip(i as int);
            proof {
                assert(tail.drop_first() =~= chars@.skip(i + 1));
                assert(tail[0] == chars@[i as int]);
            }
            let ghost prev = encode_name(chars@.skip(i + 1));
            if chars[i] == '/' {
                out.push('_');
                out.push('_');
                assert(out@ =~= (seq!['_', '_'] + prev).reverse());
            } else {
                out.push(chars[i]);
                assert(out@ =~= (seq![chars@[i as int]] + prev).reverse());
            }
        }
        assert(chars@.skip(0) =~= chars@);
        let mut fwd: Vec<char> = Vec::new();
        let mut j: usize = out.len();
        while j > 0
            invariant
                j <= out.len(),
                fwd@ == out@.skip(j as int).reverse(),
            decreases j,
        {
            j -= 1;
            fwd.push(out[j]);
            assert(fwd@ =~= out@.skip(j as int).reverse());
        }
        proof {
            assert(out@.skip(0) =~= out@);
            assert(out@.reverse() =~= encode_name(chars@)) by {
                let e = encode_name(chars@);
                assert(e.reverse().reverse() =~= e);
            }
        }
        chars_to_string(&fwd)
    }

    /// The branch name that the file stem `stem` stands for.
    pub fn branch_name_of_stem(stem: &str) -> (r: String)
        ensures
            r@ == decode_stem(stem@),
    {
        let chars = str_chars(stem);
        let mut out: Vec<char> = Vec::new();
        let mut i: usize = 0;
        proof {
            assert(chars@.skip(0) =~= chars@);
            assert(out@ + decode_stem(chars@) =~= decode_stem(chars@));
        }
        while i < chars.len()
            invariant
                i <= chars.len(),
                chars@ == stem@,
                out@ + decode_stem(chars@.skip(i as int)) == decode_stem(chars@),
            decreases chars.len() - i,
        {
            let ghost tail = chars@.skip(i as int);
            if i + 1 < chars.len() && chars[i] == '_' && chars[i + 1] == '_' {
                proof {
                    assert(tail[0] == '_' && tail[1] == '_');
                    assert(tail.skip(2) =~= chars@.skip(i + 2));
                    assert(out@.push('/') + decode_stem(chars@.skip(i + 2)) =~= out@ + decode_stem(tail));
                }
                out.push('/');
                i += 2;
            } else {
                proof {
                    assert(tail[0] == chars@[i as int]);
                    if tail.len() >= 2 {
                        assert(tail[1] == chars@[i + 1]);
                    }
                    assert(tail.drop_first() =~= chars@.skip(i + 1));
                    assert(out@.push(chars@[i as int]) + decode_stem(chars@.skip(i + 1)) =~= out@ + decode_stem(tail));
                }
                out.push(chars[i]);
                i += 1;
            }
        }
        proof {
            assert(chars@.skip(0) =~= chars@);
            assert(out@ + decode_stem(chars@.skip(chars.len() as int)) =~= out@);
        }
        chars_to_string(&out)
    }

    /// Creates the branch `name` from `from_branch`, or from the default
    /// branch (`main` where none is set), and stores it.
    ///
    /// Fails, and changes nothing, where the name is invalid, a branch of
    /// that name exists, or the parent does not exist.
    pub fn create(&mut self, name: &str, from_branch: Option<&str>, description: Option<&str>) -> (r: Result<Branch, BranchError>)
        requires
            old(self).wf(),
        ensures
            final(self).wf(),
            final(self).default_name() == old(self).default_name(),
            r is Ok <==> name_problem(name@) is None && !old(self).models().contains_key(name@)
                && old(self).models().contains_key(old(self).parent_name(from_branch)),
            r matches Ok(b) ==> {
                let parent = old(self).models()[old(self).parent_name(from_branch)];
                &&& b@.name == name@
                &&& b@.head == parent.head
                &&& b@.fork_point == Some(parent.head)
                &&& b@.parent_branch == Some(parent.name)
                &&& b@.description == (match description {
                    Some(d) => Some(d@),
                    None => None,
                })
                &&& final(self).models() == old(self).models().insert(name@, b@)
            },
            r matches Err(e) ==> {
                &&& final(self).models() == old(self).models()
                &&& name_problem(name@) is Some ==> (e matches BranchError::InvalidBranchName(msg) && msg@ == problem_text(
                    name_problem(name@)->0,
                    name@,
                ))
                &&& name_problem(name@) is None && old(self).models().contains_key(name@) ==> (e matches BranchError::BranchAlreadyExists(n) && n@ == name@)
                &&& name_problem(name@) is None && !old(self).models().contains_key(name@) ==> (e matches BranchError::BranchNotFound(n) && n@ == old(self).parent_name(from_branch))
            },
    {
        match Self::validate_branch_name(name) {
            Err(e) => {
                return Err(e);
            },
            Ok(_) => {},
        }
        if self.branches.contains_key(name) {
            return Err(BranchError::BranchAlreadyExists(name.to_owned()));
        }
        let from_name: String = match from_branch {
            Some(n) => n.to_owned(),
            None => match &self.default_branch {
                Some(d) => d.clone(),
                None => "main".to_owned(),
            },
        };
        let branch = match self.branches.get(from_name.as_str()) {
            None => {
                return Err(BranchError::BranchNotFound(from_name));
            },
            Some(source) => {
                let b = Branch::from_branch(name, source);
                match description {
                    Some(d) => b.with_description(d),
                    None => b,
                }
            },
        };
        let stored = branch.clone();
        self.branches.insert(name.to_owned(), stored);
        proof {
            use_type_invariant(&self.branches);
            assert(self.models() =~= old(self).models().insert(name@, branch@));
        }
        Ok(branch)
    }

    /// The name of the branch that a new branch is created from: the one
    /// given or, where none is given, the default branch, or `main` where no
    /// default is set.
    pub open spec fn parent_name(&self, from_branch: Option<&str>) -> Seq<char> {
        match from_branch {
            Some(n) => n@,
            None => match self.default_name() {
                Some(d) => d,
                None => "main"@,
            },
        }
    }

    /// A copy of the branch `name`.
    pub fn get(&self, name: &str) -> (r: Result<Branch, BranchError>)
        requires
            self.wf(),
        ensures
            r is Ok <==> self.models().contains_key(name@),
            r matches Ok(b) ==> b@ == self.models()[name@],
            r matches Err(e) ==> (e matches BranchError::BranchNotFound(n) && n@ == name@),
    {
        match self.branches.get(name) {
            Some(b) => Ok(b.clone()),
            None => Err(BranchError::BranchNotFound(name.to_owned())),
        }
    }

    /// The names of all branches, sorted.
    pub fn list(&self) -> (r: Result<Vec<String>, BranchError>)
        requires
            self.wf(),
        ensures
            r is Ok,
            sorted_strict(r->Ok_0.deep_view()),
            forall|k: Seq<char>| #[trigger] r->Ok_0.deep_view().contains(k) <==> self.models().contains_key(k),
    {
        Ok(self.branches.keys())
    }

    /// Stores `branch` under its name, in place of a branch of that name.
    pub fn save_branch(&mut self, branch: &Branch) -> (r: Result<(), BranchError>)
        requires
            old(self).wf(),
        ensures
            r is Ok,
            final(self).wf(),
            final(self).models() == old(self).models().insert(branch@.name, branch@),
            final(self).default_name() == old(self).default_name(),
    {
        let b = branch.clone();
        self.branches.insert(b.name.clone(), b);
        proof {
            use_type_invariant(&self.branches);
            assert(self.models() =~= old(self).models().insert(branch@.name, branch@));
        }
        Ok(())
    }

    /// Deletes the branch `name`. The default branch cannot be deleted.
    pub fn delete(&mut self, name: &str) -> (r: Result<(), BranchError>)
        requires
            old(self).wf(),
        ensures
            final(self).wf(),
            final(self).default_name() == old(self).default_name(),
            r is Ok <==> old(self).default_name() != Some(name@) && old(self).models().contains_key(name@),
            r is Ok ==> final(self).models() == old(self).models().remove(name@),
            r matches Err(e) ==> {
                &&& final(self).models() == old(self).models()
                &&& old(self).default_name() == Some(name@) ==> (e matches BranchError::CannotDeleteDefault(n) && n@ == name@)
                &&& old(self).default_name() != Some(name@) ==> (e matches BranchError::BranchNotFound(n) && n@ == name@)
            },
    {
        let is_default = match &self.default_branch {
            Some(d) => str_eq(d.as_str(), name),
            None => false,
        };
        if is_default {
            return Err(BranchError::CannotDeleteDefault(name.to_owned()));
        }
        match self.branches.remove(name) {
            Some(_) => {
                proof {
                    use_type_invariant(&self.branches);
                    assert(self.models() =~= old(self).models().remove(name@));
                }
                Ok(())
            },
            None => {
                proof {
                    use_type_invariant(&self.branches);
                    assert(self.branches@ =~= old(self).branches@);
                    assert(self.models() =~= old(self).models());
                }
                Err(BranchError::BranchNotFound(name.to_owned()))
            },
        }
    }

    /// Points `table_name` at `version` on the branch `branch_name`.
    pub fn update_head(&mut self, branch_name: &str, table_name: &str, version: u64) -> (r: Result<(), BranchError>)
        requires
            old(self).wf(),
        ensures
            final(self).wf(),
            final(self).default_name() == old(self).default_name(),
            r is Ok <==> old(self).models().contains_key(branch_name@),
            r is Ok ==> final(self).models() == old(self).models().insert(
                branch_name@,
                (BranchModel {
                    head: old(self).models()[branch_name@].head.insert(table_name@, version),
                    ..old(self).models()[branch_name@]
                }),
            ),
            r matches Err(e) ==> (final(self).models() == old(self).models() && (e matches BranchError::BranchNotFound(n) && n@ == branch_name@)),
    {
        let mut branch = match self.branches.get(branch_name) {
            Some(b) => b.clone(),
            None => {
                return Err(BranchError::BranchNotFound(branch_name.to_owned()));
            },
        };
        branch.set_table_version(table_name, version);
        let ghost stored = branch@;
        self.branches.insert(branch_name.to_owned(), branch);
        proof {
            use_type_invariant(&self.branches);
            assert(self.models() =~= old(self).models().insert(branch_name@, stored));
        }
        Ok(())
    }

    /// The version of `table_name` on the branch `branch_name`.
    pub fn get_table_version(&self, branch_name: &str, table_name: &str) -> (r: Result<Option<u64>, BranchError>)
        requires
            self.wf(),
        ensures
            r is Ok <==> self.models().contains_key(branch_name@),
            r matches Ok(v) ==> v == (if self.models()[branch_name@].head.contains_key(table_name@) {
                Some(self.models()[branch_name@].head[table_name@])
            } else {
                None
            }),
            r matches Err(e) ==> (e matches BranchError::BranchNotFound(n) && n@ == branch_name@),
    {
        match self.branches.get(branch_name) {
            Some(b) => Ok(b.get_table_version(table_name)),
            None => Err(BranchError::BranchNotFound(branch_name.to_owned())),
        }
    }

    /// Compares the branch `source` with the branch `target`.
    pub fn diff(&self, source: &str, target: &str) -> (r: Result<BranchDiff, BranchError>)
        requires
            self.wf(),
        ensures
            r is Ok <==> self.models().contains_key(source@) && self.models().contains_key(target@),
            r matches Ok(d) ==> {
                &&& d.source_branch@ == source@
                &&& d.target_branch@ == target@
                &&& d.describes(
                    self.models()[source@].head,
                    self.models()[target@].head,
                    self.models()[source@].fork_point,
                )
            },
            r matches Err(e) ==> (e matches BranchError::BranchNotFound(n) && n@ == (if self.models().contains_key(source@) {
                target@
            } else {
                source@
            })),
    {
        let s = match self.branches.get(source) {
            Some(b) => b,
            None => {
                return Err(BranchError::BranchNotFound(source.to_owned()));
            },
        };
        let t = match self.branches.get(target) {
            Some(b) => b,
            None => {
                return Err(BranchError::BranchNotFound(target.to_owned()));
            },
        };
        Ok(BranchDiff::compute(s, t))
    }

    /// Whether `source` merges into `target` without a true conflict.
    pub fn can_fast_forward(&self, source: &str, target: &str) -> (r: Result<bool, BranchError>)
        requires
            self.wf(),
        ensures
            r is Ok <==> self.models().contains_key(source@) && self.models().contains_key(target@),
            r matches Ok(b) ==> b == !has_true_conflict(
                self.models()[source@].head,
                self.models()[target@].head,
                self.models()[source@].fork_point,
            ),
            r matches Err(e) ==> (e matches BranchError::BranchNotFound(n) && n@ == (if self.models().contains_key(source@) {
                target@
            } else {
                source@
            })),
    {
        match self.diff(source, target) {
            Ok(d) => {
                proof {
                    lemma_conflict_list(
                        d,
                        self.models()[source@].head,
                        self.models()[target@].head,
                        self.models()[source@].fork_point,
                    );
                }
                Ok(!d.has_conflicts)
            },
            Err(e) => Err(e),
        }
    }

    /// Merges the branch `source` into the branch `into`; only the head of
    /// `into` moves.
    ///
    /// Where the source has a fork point the merge is three-way and refuses
    /// any true conflict, leaving the target as it was. Where it has none the
    /// merge is forward-only.
    pub fn merge_fast_forward(&mut self, source: &str, into: &str) -> (r: Result<(), BranchError>)
        requires
            old(self).wf(),
        ensures
            final(self).wf(),
            final(self).default_name() == old(self).default_name(),
            r is Ok <==> {
                &&& old(self).models().contains_key(source@)
                &&& old(self).models().contains_key(into@)
                &&& (old(self).models()[source@].fork_point is Some ==> !has_true_conflict(
                    old(self).models()[source@].head,
                    old(self).models()[into@].head,
                    old(self).models()[source@].fork_point,
                ))
            },
            r is Ok ==> final(self).models() == old(self).models().insert(
                into@,
                (BranchModel {
                    head: merged_head(old(self).models()[source@], old(self).models()[into@]),
                    ..old(self).models()[into@]
                }),
            ),
            r matches Err(e) ==> {
                &&& final(self).models() == old(self).models()
                &&& !old(self).models().contains_key(source@) ==> (e matches BranchError::BranchNotFound(n) && n@ == source@)
                &&& old(self).models().contains_key(source@) && !old(self).models().contains_key(into@) ==> (e matches BranchError::BranchNotFound(n) && n@ == into@)
                &&& old(self).models().contains_key(source@) && old(self).models().contains_key(into@) ==> (e matches BranchError::MergeConflict(tables) && sorted_strict(tables.deep_view())
                    && forall|t: Seq<char>| tables.deep_view().contains(t) <==> classify(
                        old(self).models()[source@].head,
                        old(self).models()[into@].head,
                        old(self).models()[source@].fork_point,
                        t,
                    ) == TableDiff::Conflict)
            },
    {
        let source_branch = match self.branches.get(source) {
            Some(b) => b,
            None => {
                return Err(BranchError::BranchNotFound(source.to_owned()));
            },
        };
        let mut target_branch = match self.branches.get(into) {
            Some(b) => b.clone(),
            None => {
                return Err(BranchError::BranchNotFound(into.to_owned()));
            },
        };
        let ghost src = source_branch.head@;
        let ghost tgt = target_branch.head@;
        match &source_branch.fork_point {
            Some(base) => {
                let diff = BranchDiff::compute(source_branch, &target_branch);
                proof {
                    lemma_conflict_list(diff, src, tgt, Some(base@));
                }
                if diff.has_conflicts {
                    let tables = diff.conflicting_tables();
                    return Err(BranchError::MergeConflict(tables));
                }
                apply_triples(&mut target_branch.head, &diff.source_only_changes, Ghost(src));
                apply_pairs(&mut target_branch.head, &diff.added_in_source, Ghost(src));
                proof {
                    assert(target_branch.head@ =~= three_way_head(src, tgt, base@)) by {
                        assert forall|t: Seq<char>| #[trigger] target_branch.head@.contains_key(t) <==> (tgt.contains_key(t) || src.contains_key(t)) by {
                            if names3(diff.source_only_changes@).contains(t) {
                                assert(classify(src, tgt, Some(base@), t) == TableDiff::SourceOnly);
                            }
                            if names2(diff.added_in_source@).contains(t) {
                                assert(classify(src, tgt, Some(base@), t) == TableDiff::AddedInSource);
                            }
                            if src.contains_key(t) && !tgt.contains_key(t) {
                                assert(classify(src, tgt, Some(base@), t) == TableDiff::AddedInSource);
                            }
                        }
                        assert forall|t: Seq<char>| #[trigger] target_branch.head@.contains_key(t) implies target_branch.head@[t] == three_way_head(src, tgt, base@)[t] by {
                            let c = classify(src, tgt, Some(base@), t);
                            if c == TableDiff::SourceOnly {
                                assert(names3(diff.source_only_changes@).contains(t));
                                assert(!names2(diff.added_in_source@).contains(t));
                            } else if c == TableDiff::AddedInSource {
                                assert(names2(diff.added_in_source@).contains(t));
                            } else {
                                assert(!names3(diff.source_only_changes@).contains(t));
                                assert(!names2(diff.added_in_source@).contains(t));
                            }
                        }
                    }
                }
            },
            None => {
                forward_merge(&mut target_branch.head, &source_branch.head);
            },
        }
        let ghost stored = target_branch@;
        self.branches.insert(into.to_owned(), target_branch);
        proof {
            use_type_invariant(&self.branches);
            assert(self.models() =~= old(self).models().insert(into@, stored));
        }
        Ok(())
    }

    /// The name of the default branch, if one is set.
    pub fn get_default(&self) -> (r: Result<Option<String>, BranchError>)
        ensures
            r is Ok,
            opt_text(r->Ok_0) == self.default_name(),
    {
        match &self.default_branch {
            Some(d) => Ok(Some(d.clone())),
            None => Ok(None),
        }
    }

    /// Makes the existing branch `name` the default branch.
    pub fn set_default(&mut self, name: &str) -> (r: Result<(), BranchError>)
        requires
            old(self).wf(),
        ensures
            final(self).wf(),
            final(self).models() == old(self).models(),
            r is Ok <==> old(self).models().contains_key(name@),
            r is Ok ==> final(self).default_name() == Some(name@),
            r matches Err(e) ==> (final(self).default_name() == old(self).default_name() && (e matches BranchError::BranchNotFound(n) && n@ == name@)),
    {
        if !self.branches.contains_key(name) {
            return Err(BranchError::BranchNotFound(name.to_owned()));
        }
        self.default_branch = Some(name.to_owned());
        Ok(())
    }
}

/// No branch after the one at `i` has its name.
pub open spec fn is_last_of_name(branches: Seq<Branch>, i: int) -> bool {
    forall|j: int| i < j < branches.len() ==> (#[trigger] branches[j]).name@ != branches[i].name@
}

/// Whether `a` directly followed by `b` occurs in `chars`.
fn contains_pair(chars: &Vec<char>, a: char, b: char) -> (r: bool)
    ensures
        r == has_pair(chars@, a, b),
{
    if chars.len() < 2 {
        return false;
    }
    let mut i: usize = 0;
    while i + 1 < chars.len()
        invariant
            i + 1 <= chars.len(),
            forall|j: int| 0 <= j < i ==> !(#[trigger] chars@[j] == a && chars@[j + 1] == b),
        decreases chars.len() - i,
    {
        if chars[i] == a && chars[i + 1] == b {
            return true;
        }
        i += 1;
    }
    false
}

/// A diff has conflicts exactly when some table is in true conflict.
proof fn lemma_conflict_list(
    d: BranchDiff,
    src: Map<Seq<char>, u64>,
    tgt: Map<Seq<char>, u64>,
    base: Option<Map<Seq<char>, u64>>,
)
    requires
        d.describes(src, tgt, base),
    ensures
        d.has_conflicts == has_true_conflict(src, tgt, base),
{
    if d.modified@.len() > 0 {
        assert(names3(d.modified@).contains(names3(d.modified@)[0]));
    }
    if has_true_conflict(src, tgt, base) {
        let t = choose|t: Seq<char>| classify(src, tgt, base, t) == TableDiff::Conflict;
        assert(names3(d.modified@).contains(t));
    }
}

/// Sets each listed table to its source version.
fn apply_triples(head: &mut StrMap<u64>, list: &Vec<(String, u64, u64)>, Ghost(src): Ghost<Map<Seq<char>, u64>>)
    requires
        forall|i: int| 0 <= i < list.len() ==> (#[trigger] list[i]).1 == src[list[i].0@],
    ensures
        forall|t: Seq<char>| #[trigger] final(head)@.contains_key(t) <==> old(head)@.contains_key(t) || names3(list@).contains(t),
        forall|t: Seq<char>| names3(list@).contains(t) ==> #[trigger] final(head)@[t] == src[t],
        forall|t: Seq<char>| !names3(list@).contains(t) ==> #[trigger] final(head)@[t] == old(head)@[t],
{
    let ghost names = names3(list@);
    let mut i: usize = 0;
    while i < list.len()
        invariant
            i <= list.len(),
            names == names3(list@),
            forall|j: int| 0 <= j < list.len() ==> (#[trigger] list[j]).1 == src[list[j].0@],
            forall|t: Seq<char>| #[trigger] head@.contains_key(t) <==> old(head)@.contains_key(t) || in_prefix(names, i as int, t),
            forall|t: Seq<char>| in_prefix(names, i as int, t) ==> #[trigger] head@[t] == src[t],
            forall|t: Seq<char>| !in_prefix(names, i as int, t) ==> #[trigger] head@[t] == old(head)@[t],
        decreases list.len() - i,
    {
        let ghost before = head@;
        head.insert(list[i].0.clone(), list[i].1);
        proof {
            assert(names[i as int] == list[i as int].0@);
            assert forall|t: Seq<char>| in_prefix(names, i + 1, t) <==> (t == names[i as int] || in_prefix(names, i as int, t)) by {
                lemma_prefix_step(names, i as int, t);
            }
        }
        i += 1;
    }
    proof {
        assert forall|t: Seq<char>| in_prefix(names, names.len() as int, t) <==> names.contains(t) by {
            lemma_prefix_all(names, t);
        }
    }
}

/// Sets each listed table to its listed version.
fn apply_pairs(head: &mut StrMap<u64>, list: &Vec<(String, u64)>, Ghost(src): Ghost<Map<Seq<char>, u64>>)
    requires
        forall|i: int| 0 <= i < list.len() ==> (#[trigger] list[i]).1 == src[list[i].0@],
    ensures
        forall|t: Seq<char>| #[trigger] final(head)@.contains_key(t) <==> old(head)@.contains_key(t) || names2(list@).contains(t),
        forall|t: Seq<char>| names2(list@).contains(t) ==> #[trigger] final(head)@[t] == src[t],
        forall|t: Seq<char>| !names2(list@).contains(t) ==> #[trigger] final(head)@[t] == old(head)@[t],
{
    let ghost names = names2(list@);
    let mut i: usize = 0;
    while i < list.len()
        invariant
            i <= list.len(),
            names == names2(list@),
            forall|j: int| 0 <= j < list.len() ==> (#[trigger] list[j]).1 == src[list[j].0@],
            forall|t: Seq<char>| #[trigger] head@.contains_key(t) <==> old(head)@.contains_key(t) || in_prefix(names, i as int, t),
            forall|t: Seq<char>| in_prefix(names, i as int, t) ==> #[trigger] head@[t] == src[t],
            forall|t: Seq<char>| !in_prefix(names, i as int, t) ==> #[trigger] head@[t] == old(head)@[t],
        decreases list.len() - i,
    {
        head.insert(list[i].0.clone(), list[i].1);
        proof {
            assert(names[i as int] == list[i as int].0@);
            assert forall|t: Seq<char>| in_prefix(names, i + 1, t) <==> (t == names[i as int] || in_prefix(names, i as int, t)) by {
                lemma_prefix_step(names, i as int, t);
            }
        }
        i += 1;
    }
    proof {
        assert forall|t: Seq<char>| in_prefix(names, names.len() as int, t) <==> names.contains(t) by {
            lemma_prefix_all(names, t);
        }
    }
}

/// The head while a forward-only merge is under way: the first `n` tables
/// of the source have been merged.
pub open spec fn forward_partial(
    keys: Seq<Seq<char>>,
    n: int,
    src: Map<Seq<char>, u64>,
    tgt: Map<Seq<char>, u64>,
) -> Map<Seq<char>, u64> {
    Map::new(
        |t: Seq<char>| tgt.contains_key(t) || (in_prefix(keys, n, t) && src[t] > 0),
        |t: Seq<char>|
            if in_prefix(keys, n, t) && src[t] > version_or_zero(tgt, t) {
                src[t]
            } else {
                tgt[t]
            },
    )
}

/// The forward-only merge of `source` into `head`.
fn forward_merge(head: &mut StrMap<u64>, source: &StrMap<u64>)
    ensures
        final(head)@ == forward_head(source@, old(head)@),
{
    let n = source.len();
    let ghost tgt = head@;
    let ghost src = source@;
    let ghost keys = source.keys_seq();
    let mut i: usize = 0;
    proof {
        source.lemma_dom();
        assert(head@ =~= forward_partial(keys, 0, src, tgt));
    }
    while i < n
        invariant
            i <= n,
            n == keys.len(),
            keys == source.keys_seq(),
            src == source@,
            source.wf(),
            head@ == forward_partial(keys, i as int, src, tgt),
        decreases n - i,
    {
        let k = source.key_at(i);
        let sv = *source.value_at(i);
        let ghost before = head@;
        proof {
            // the key at `i` has not been merged yet
            if in_prefix(keys, i as int, k@) {
                let j = choose|j: int| 0 <= j < i && j < keys.len() && #[trigger] keys[j] == k@;
                lemma_sorted_distinct(keys, j, i as int);
            }
        }
        let tv = match head.get(k.as_str()) {
            Some(v) => *v,
            None => 0,
        };
        assert(tv == version_or_zero(tgt, k@));
        if sv > tv {
            head.insert(k.clone(), sv);
        }
        proof {
            assert forall|t: Seq<char>| in_prefix(keys, i + 1, t) <==> (t == keys[i as int] || in_prefix(keys, i as int, t)) by {
                lemma_prefix_step(keys, i as int, t);
            }
            assert(head@ =~= forward_partial(keys, i + 1, src, tgt));
        }
        i += 1;
    }
    proof {
        assert forall|t: Seq<char>| in_prefix(keys, n as int, t) <==> src.contains_key(t) by {
            lemma_prefix_all(keys, t);
            assert(source@.dom().contains(t) == keys.to_set().contains(t));
        }
        assert(head@ =~= forward_head(src, tgt));
    }
}

} // verus!
