//! Escapes: the stretches of a text between an opening and a closing brace,
//! which both directions of the cipher leave as they are.
use vstd::prelude::*;

verus! {

/// Whether the brace at `open` starts an escape that is still open at `at`:
/// it is an opening brace before `at`, and no closing brace stands between
/// the two.
pub open spec fn opens(text: Seq<char>, open: int, at: int) -> bool {
    &&& 0 <= open < at <= text.len()
    &&& text[open] == '{'
    &&& forall|k: int| open < k < at ==> #[trigger] text[k] != '}'
}

/// Whether the place `at` of `text` lies inside an escape.
pub open spec fn in_escape(text: Seq<char>, at: int) -> bool {
    exists|open: int| #[trigger] opens(text, open, at)
}

/// Whether `text` opens an escape inside an escape that is still open.
pub open spec fn has_nested_escape(text: Seq<char>) -> bool {
    exists|at: int| 0 <= at < text.len() && text[at] == '{' && #[trigger] in_escape(text, at)
}

/// Whether `text` holds no brace of either kind.
pub open spec fn brace_free(text: Seq<char>) -> bool {
    forall|k: int| 0 <= k < text.len() ==> #[trigger] text[k] != '{' && text[k] != '}'
}

/// How an escape moves on over one character: an opening brace opens one, a
/// closing brace closes it, and any other character leaves things as they
/// were.
pub proof fn lemma_escape_step(text: Seq<char>, at: int)
    requires
        0 <= at < text.len(),
    ensures
        in_escape(text, at + 1) == (text[at] == '{' || (text[at] != '}' && in_escape(text, at))),
{
    if text[at] == '{' {
        assert(opens(text, at, at + 1));
    } else if text[at] != '}' && in_escape(text, at) {
        let open = choose|open: int| opens(text, open, at);
        assert(opens(text, open, at + 1));
    }
    let next = at + 1;
    if in_escape(text, next) {
        let open = choose|open: int| opens(text, open, next);
        if open < at {
            assert(text[at] != '}');
            assert(opens(text, open, at));
        }
    }
}

/// Whether a place lies inside an escape is decided by the text before it.
pub proof fn lemma_escape_ignores_rest(text: Seq<char>, front: Seq<char>, at: int)
    requires
        0 <= at <= front.len() <= text.len(),
        forall|k: int| 0 <= k < front.len() ==> #[trigger] front[k] == text[k],
    ensures
        in_escape(front, at) == in_escape(text, at),
{
    if in_escape(front, at) {
        let open = choose|open: int| opens(front, open, at);
        assert forall|k: int| open < k < at implies #[trigger] text[k] != '}' by {
            assert(front[k] != '}');
        }
        assert(front[open] == text[open]);
        assert(opens(text, open, at));
    }
    if in_escape(text, at) {
        let open = choose|open: int| opens(text, open, at);
        assert forall|k: int| open < k < at implies #[trigger] front[k] != '}' by {
            assert(text[k] != '}');
        }
        assert(front[open] == text[open]);
        assert(opens(front, open, at));
    }
}

} // verus!
