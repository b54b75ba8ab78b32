//! The code-generation interface that chunk items feed: which generators run
//! for a module, with or without availability information. Concrete AST
//! visiting and emission belong to the code generator, an external
//! collaborator.

use vstd::prelude::*;

verus! {

use crate::available_assets::AvailabilityInfo;

/// The identity of an ECMAScript chunking context.
#[derive(Clone, Copy, PartialEq, Eq, Structural, Debug)]
pub struct EcmascriptChunkingContextVc {
    pub id: u64,
}

/// The identity of one produced code generation.
#[derive(Clone, Copy, PartialEq, Eq, Structural, Debug)]
pub struct CodeGenerationVc {
    pub id: u64,
}

/// The identity of a code generator inferred from an asset reference.
#[derive(Clone, Copy, PartialEq, Eq, Structural, Debug)]
pub struct CodeGenerateableVc {
    pub id: u64,
}

/// The identity of a code generator that also consumes availability
/// information.
#[derive(Clone, Copy, PartialEq, Eq, Structural, Debug)]
pub struct CodeGenerateableWithAvailabilityInfoVc {
    pub id: u64,
}

/// A code generator, as its producers implement it.
pub trait CodeGenerateable {
    /// Produces the code generation for the given context.
    fn code_generation(&self, context: EcmascriptChunkingContextVc) -> CodeGenerationVc;
}

/// A code generator that also consumes availability information.
pub trait CodeGenerateableWithAvailabilityInfo {
    /// Produces the code generation for the given context and availability
    /// state.
    fn code_generation(
        &self,
        context: EcmascriptChunkingContextVc,
        availability_info: &AvailabilityInfo,
    ) -> CodeGenerationVc;
}

/// Either kind of code generator.
#[derive(Clone, Copy, PartialEq, Eq, Structural, Debug)]
pub enum CodeGen {
    CodeGenerateable(CodeGenerateableVc),
    CodeGenerateableWithAvailabilityInfo(CodeGenerateableWithAvailabilityInfoVc),
}

/// An ordered collection of code generators.
pub struct CodeGenerateables(pub Vec<CodeGen>);

/// The index of the last position the predicate matched, or a negative value
/// if it matched nowhere.
pub open spec fn last_match(is_match: Seq<bool>) -> int
    decreases is_match.len(),
{
    if is_match.len() == 0 {
        -1
    } else if is_match.last() {
        is_match.len() - 1
    } else {
        last_match(is_match.drop_last())
    }
}

proof fn lemma_last_match_at(s: Seq<bool>, i: int)
    requires
        0 <= i < s.len(),
        s[i],
        forall|k: int| i < k < s.len() ==> !s[k],
    ensures
        last_match(s) == i,
    decreases s.len(),
{
    if i < s.len() - 1 {
        let t = s.drop_last();
        assert(t[i] == s[i]);
        assert forall|k: int| i < k < t.len() implies !t[k] by {
            assert(t[k] == s[k]);
        }
        lemma_last_match_at(t, i);
    }
}

proof fn lemma_last_match_none(s: Seq<bool>)
    requires
        forall|k: int| 0 <= k < s.len() ==> !s[k],
    ensures
        last_match(s) == -1,
    decreases s.len(),
{
    if s.len() > 0 {
        let t = s.drop_last();
        assert forall|k: int| 0 <= k < t.len() implies !t[k] by {
            assert(t[k] == s[k]);
        }
        lemma_last_match_none(t);
    }
}

/// The prefix of an AST path strictly before the closest (last) position the
/// node-kind predicate matches, or the whole path if it matches nowhere.
/// `path` holds the node identities, `is_match` the predicate's verdict for
/// each position.
pub fn path_to(path: &Vec<u64>, is_match: &Vec<bool>) -> (r: Vec<u64>)
    requires
        path@.len() == is_match@.len(),
    ensures
        r@ == (if last_match(is_match@) >= 0 {
            path@.subrange(0, last_match(is_match@))
        } else {
            path@
        }),
{
    let mut i: usize = path.len();
    while i > 0
        invariant
            i <= path@.len(),
            path@.len() == is_match@.len(),
            forall|k: int| i <= k < is_match@.len() ==> !is_match@[k],
        decreases i,
    {
        if is_match[i - 1] {
            proof {
                lemma_last_match_at(is_match@, i - 1);
            }
            let mut r: Vec<u64> = Vec::new();
            let mut j: usize = 0;
            while j < i - 1
                invariant
                    i >= 1,
                    i <= path@.len(),
                    j <= i - 1,
                    r@ == path@.subrange(0, j as int),
                decreases i - 1 - j,
            {
                r.push(path[j]);
                proof {
                    assert(r@ =~= path@.subrange(0, j as int + 1));
                }
                j += 1;
            }
            return r;
        }
        i -= 1;
    }
    proof {
        lemma_last_match_none(is_match@);
    }
    let mut r: Vec<u64> = Vec::new();
    let mut j: usize = 0;
    while j < path.len()
        invariant
            j <= path@.len(),
            r@ == path@.subrange(0, j as int),
        decreases path@.len() - j,
    {
        r.push(path[j]);
        proof {
            assert(r@ =~= path@.subrange(0, j as int + 1));
        }
        j += 1;
    }
    proof {
        assert(r@ =~= path@);
    }
    r
}

} // verus!
