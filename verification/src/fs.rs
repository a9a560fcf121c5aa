//! Scoped views of the host filesystem.
//!
//! A runner never names a host path. It holds a token, and every
//! operation it asks for carries the token and a path inside the view
//! that the token stands for. The host side looks the token up, checks
//! the kind of operation against the access the token grants, and turns
//! the path into a host path below the root of the view.
//!
//! Paths are byte strings with `/` between their segments. A path is
//! read from the root of the view, whether or not it begins with `/`.
//! Empty segments and `.` stand for nothing; `..` steps back to the
//! parent, and a path that would step back past the root is refused.

use crate::ids::{FsToken, StreamID};
use crate::table::Registry;
use vstd::prelude::*;
use vstd::slice::{slice_subrange, slice_to_vec};

verus! {

/// The byte between the segments of a path.
pub const SLASH: u8 = 0x2f;

/// The byte of which `.` and `..` are made.
pub const DOT: u8 = 0x2e;

/// What a token allows.
#[derive(Debug, PartialEq, Eq, Clone, Copy, Structural)]
pub enum FsAccess {
    ReadOnly,
    ReadWrite,
}

/// The operations a runner can ask for.
#[derive(Debug, PartialEq, Eq, Clone, Copy, Structural)]
pub enum FsOpKind {
    Metadata,
    ReadFile,
    ReadDir,
    ReadLink,
    WriteFile,
    CreateDir,
    RemoveFile,
    RemoveDir,
}

impl FsOpKind {
    /// Whether the operation changes the filesystem.
    pub open spec fn spec_is_write(self) -> bool {
        match self {
            FsOpKind::Metadata | FsOpKind::ReadFile | FsOpKind::ReadDir | FsOpKind::ReadLink => false,
            FsOpKind::WriteFile | FsOpKind::CreateDir | FsOpKind::RemoveFile | FsOpKind::RemoveDir => true,
        }
    }

    /// Whether the operation changes the filesystem.
    #[verifier::when_used_as_spec(spec_is_write)]
    pub fn is_write(self) -> (r: bool)
        ensures
            r == self.spec_is_write(),
    {
        match self {
            FsOpKind::Metadata | FsOpKind::ReadFile | FsOpKind::ReadDir | FsOpKind::ReadLink => false,
            FsOpKind::WriteFile | FsOpKind::CreateDir | FsOpKind::RemoveFile | FsOpKind::RemoveDir => true,
        }
    }
}

/// Why an operation was refused. None of these harms the connection: the
/// runner gets an error response and the session goes on.
#[derive(Debug, PartialEq, Eq, Clone, Copy, Structural)]
pub enum FsError {
    /// The token stands for no view: it was never issued, or the exchange
    /// it was issued for is over.
    UnknownToken,
    /// The operation writes, and the token grants reading only.
    ReadOnly,
    /// The path steps back past the root of the view.
    EscapesRoot,
}

/// The segment `.`.
pub open spec fn dot() -> Seq<u8> {
    seq![DOT]
}

/// The segment `..`.
pub open spec fn dot_dot() -> Seq<u8> {
    seq![DOT, DOT]
}

/// The position of the first `/` in `path`, or its length where it holds
/// none.
pub open spec fn first_slash(path: Seq<u8>) -> int
    decreases path.len(),
{
    if path.len() == 0 || path[0] == SLASH {
        0
    } else {
        1 + first_slash(path.drop_first())
    }
}

/// The first `/` of a path stands within it, with no `/` before it.
pub proof fn lemma_first_slash(path: Seq<u8>)
    ensures
        0 <= first_slash(path) <= path.len(),
        forall|i: int| 0 <= i < first_slash(path) ==> path[i] != SLASH,
        first_slash(path) < path.len() ==> path[first_slash(path)] == SLASH,
    decreases path.len(),
{
    if path.len() == 0 || path[0] == SLASH {
    } else {
        let tail = path.drop_first();
        lemma_first_slash(tail);
        assert forall|i: int| 0 <= i < first_slash(path) implies path[i] != SLASH by {
            if i > 0 {
                assert(path[i] == tail[i - 1]);
            }
        }
        assert(tail[first_slash(tail)] == path[first_slash(path)] || first_slash(path)
            >= path.len());
    }
}

/// Where the first bytes of a path hold no `/` and one follows them, or
/// the path ends, that is where its first segment ends.
pub proof fn lemma_first_slash_at(path: Seq<u8>, n: int)
    requires
        0 <= n <= path.len(),
        forall|i: int| 0 <= i < n ==> path[i] != SLASH,
        n < path.len() ==> path[n] == SLASH,
    ensures
        first_slash(path) == n,
{
    lemma_first_slash(path);
    let f = first_slash(path);
    if f < n {
        assert(path[f] == SLASH);
    } else if f > n {
        assert(path[n] != SLASH);
    }
}

/// The segments of a path: the pieces between its slashes.
pub open spec fn segments(path: Seq<u8>) -> Seq<Seq<u8>>
    decreases path.len(),
{
    let n = first_slash(path);
    if 0 <= n < path.len() {
        seq![path.subrange(0, n)] + segments(path.skip(n + 1))
    } else {
        seq![path]
    }
}

/// A plain name: not empty, not `.` or `..`, and without a `/`.
pub open spec fn is_plain(name: Seq<u8>) -> bool {
    &&& name.len() > 0
    &&& name != dot()
    &&& name != dot_dot()
    &&& forall|i: int| 0 <= i < name.len() ==> name[i] != SLASH
}

/// Where one segment leads from the directory `stack`, given by the
/// names from the root down to it: nowhere else for an empty segment or
/// `.`, to the parent for `..`, into the entry of that name otherwise.
/// `None` where the segment would step back past the root.
pub open spec fn walk_step(stack: Seq<Seq<u8>>, seg: Seq<u8>) -> Option<Seq<Seq<u8>>> {
    if seg.len() == 0 || seg == dot() {
        Some(stack)
    } else if seg == dot_dot() {
        if stack.len() == 0 {
            None
        } else {
            Some(stack.drop_last())
        }
    } else {
        Some(stack.push(seg))
    }
}

/// Where the segments `segs`, one after another, lead from `stack`.
pub open spec fn walk(stack: Seq<Seq<u8>>, segs: Seq<Seq<u8>>) -> Option<Seq<Seq<u8>>>
    decreases segs.len(),
{
    if segs.len() == 0 {
        Some(stack)
    } else {
        match walk_step(stack, segs.first()) {
            None => None,
            Some(next) => walk(next, segs.drop_first()),
        }
    }
}

/// The names below the root that `path` leads to, or `None` where it
/// steps back past the root.
pub open spec fn resolve(path: Seq<u8>) -> Option<Seq<Seq<u8>>> {
    walk(Seq::empty(), segments(path))
}

/// The host path of the directory entry reached from `root` by `names`.
pub open spec fn join(root: Seq<u8>, names: Seq<Seq<u8>>) -> Seq<u8>
    decreases names.len(),
{
    if names.len() == 0 {
        root
    } else {
        join(root, names.drop_last()) + seq![SLASH] + names.last()
    }
}

/// A host path lies within `root` if it is the root followed by plain
/// names, a `/` before each.
pub open spec fn lies_within(root: Seq<u8>, path: Seq<u8>) -> bool {
    exists|names: Seq<Seq<u8>>|
        (forall|i: int| 0 <= i < names.len() ==> is_plain(#[trigger] names[i])) && path == join(
            root,
            names,
        )
}

/// By how much a segment changes the depth below the root: up one for
/// `..`, down one for a name.
pub open spec fn depth_step(seg: Seq<u8>) -> int {
    if seg.len() == 0 || seg == dot() {
        0
    } else if seg == dot_dot() {
        -1
    } else {
        1
    }
}

/// How far below its start a walk stands after `segs`, if nothing stops
/// it.
pub open spec fn depth_change(segs: Seq<Seq<u8>>) -> int
    decreases segs.len(),
{
    if segs.len() == 0 {
        0
    } else {
        depth_step(segs.first()) + depth_change(segs.drop_first())
    }
}

/// A path leaves its root if, after some number of its segments, it has
/// stepped back more often than it has stepped down.
pub open spec fn leaves_root(path: Seq<u8>) -> bool {
    exists|k: int| 0 <= k <= segments(path).len() && #[trigger] depth_change(segments(path).take(k)) < 0
}

/// The byte strings that a list of vectors holds.
pub open spec fn names_view(names: Seq<Vec<u8>>) -> Seq<Seq<u8>> {
    Seq::new(names.len(), |i: int| names[i]@)
}

/// No segment of a path holds a `/`.
pub proof fn lemma_segments_hold_no_slash(path: Seq<u8>)
    ensures
        forall|i: int, j: int|
            0 <= i < segments(path).len() && 0 <= j < segments(path)[i].len() ==> #[trigger] segments(
                path,
            )[i][j] != SLASH,
    decreases path.len(),
{
    let n = first_slash(path);
    lemma_first_slash(path);
    if 0 <= n < path.len() {
        let rest = segments(path.skip(n + 1));
        lemma_segments_hold_no_slash(path.skip(n + 1));
        assert forall|i: int, j: int|
            0 <= i < segments(path).len() && 0 <= j < segments(path)[i].len() implies #[trigger] segments(
            path,
        )[i][j] != SLASH by {
            if i > 0 {
                assert(segments(path)[i] == rest[i - 1]);
            }
        }
    }
}

/// A walk that starts among plain names and takes segments without a
/// `/` ends among plain names.
pub proof fn lemma_walk_keeps_names_plain(stack: Seq<Seq<u8>>, segs: Seq<Seq<u8>>)
    requires
        forall|i: int| 0 <= i < stack.len() ==> is_plain(#[trigger] stack[i]),
        forall|i: int, j: int|
            0 <= i < segs.len() && 0 <= j < segs[i].len() ==> #[trigger] segs[i][j] != SLASH,
        walk(stack, segs) is Some,
    ensures
        forall|i: int|
            0 <= i < walk(stack, segs)->Some_0.len() ==> is_plain(
                #[trigger] walk(stack, segs)->Some_0[i],
            ),
    decreases segs.len(),
{
    if segs.len() > 0 {
        let seg = segs.first();
        let next = walk_step(stack, seg)->Some_0;
        let rest = segs.drop_first();
        assert forall|i: int| 0 <= i < next.len() implies is_plain(#[trigger] next[i]) by {
            if i < stack.len() {
                assert(next[i] == stack[i]);
            } else {
                assert(next[i] == seg);
                assert forall|j: int| 0 <= j < seg.len() implies seg[j] != SLASH by {
                    assert(segs[0][j] != SLASH);
                }
            }
        }
        assert forall|i: int, j: int|
            0 <= i < rest.len() && 0 <= j < rest[i].len() implies #[trigger] rest[i][j]
            != SLASH by {
            assert(rest[i] == segs[i + 1]);
            assert(segs[i + 1][j] != SLASH);
        }
        lemma_walk_keeps_names_plain(next, rest);
    }
}

/// A walk is stopped exactly where, after some number of segments, it
/// would stand above the root.
pub proof fn lemma_walk_stops_above_root(stack: Seq<Seq<u8>>, segs: Seq<Seq<u8>>)
    ensures
        walk(stack, segs) is None <==> exists|k: int|
            0 <= k <= segs.len() && stack.len() + #[trigger] depth_change(segs.take(k)) < 0,
        walk(stack, segs) matches Some(end) ==> end.len() == stack.len() + depth_change(segs),
    decreases segs.len(),
{
    if segs.len() == 0 {
        assert forall|k: int| 0 <= k <= segs.len() implies stack.len() + #[trigger] depth_change(
            segs.take(k),
        ) >= 0 by {
            assert(segs.take(k) =~= segs);
        }
    } else {
        let seg = segs.first();
        let rest = segs.drop_first();
        assert(segs.take(0).len() == 0);
        assert(segs.take(1).first() == seg);
        assert(segs.take(1).drop_first().len() == 0);
        assert(depth_change(segs.take(1).drop_first()) == 0);
        assert(depth_change(segs.take(1)) == depth_step(seg));
        match walk_step(stack, seg) {
            None => {
                assert(stack.len() + depth_change(segs.take(1)) < 0);
            },
            Some(next) => {
                lemma_walk_stops_above_root(next, rest);
                assert(next.len() == stack.len() + depth_step(seg));
                assert forall|k: int| 1 <= k <= segs.len() implies #[trigger] depth_change(
                    segs.take(k),
                ) == depth_step(seg) + depth_change(rest.take(k - 1)) by {
                    assert(segs.take(k).first() == seg);
                    assert(segs.take(k).drop_first() =~= rest.take(k - 1));
                }
                if walk(next, rest) is None {
                    let k = choose|k: int|
                        0 <= k <= rest.len() && next.len() + #[trigger] depth_change(rest.take(k))
                            < 0;
                    assert(stack.len() + depth_change(segs.take(k + 1)) < 0);
                }
                if exists|k: int|
                    0 <= k <= segs.len() && stack.len() + #[trigger] depth_change(segs.take(k))
                        < 0 {
                    let k = choose|k: int|
                        0 <= k <= segs.len() && stack.len() + #[trigger] depth_change(
                            segs.take(k),
                        ) < 0;
                    if k == 0 {
                        assert(depth_change(segs.take(0)) == 0);
                    } else {
                        assert(next.len() + depth_change(rest.take(k - 1)) < 0);
                    }
                }
            },
        }
    }
}

/// A path resolves to nothing exactly where it leaves its root.
pub proof fn lemma_resolve_none_iff_leaves_root(path: Seq<u8>)
    ensures
        resolve(path) is None <==> leaves_root(path),
{
    lemma_walk_stops_above_root(Seq::empty(), segments(path));
}

/// Takes one segment from the directory `stack`. Returns whether the
/// step stays below the root.
fn step_segment(stack: &mut Vec<Vec<u8>>, seg: &[u8]) -> (ok: bool)
    ensures
        match walk_step(names_view(old(stack)@), seg@) {
            Some(next) => ok && names_view(final(stack)@) == next,
            None => !ok && final(stack)@ == old(stack)@,
        },
{
    let ghost before = names_view(stack@);
    let n: usize = seg.len();
    if n == 0 {
        return true;
    }
    if n == 1 && seg[0] == DOT {
        assert(seg@ =~= dot());
        return true;
    }
    if n == 2 && seg[0] == DOT && seg[1] == DOT {
        assert(seg@ =~= dot_dot());
        if stack.len() == 0 {
            return false;
        }
        let _last = stack.pop();
        assert(names_view(stack@) =~= before.drop_last());
        return true;
    }
    proof {
        if seg@ == dot() {
            assert(seg@.len() == 1 && seg@[0] == DOT);
        }
        if seg@ == dot_dot() {
            assert(seg@.len() == 2 && seg@[0] == DOT && seg@[1] == DOT);
        }
    }
    stack.push(slice_to_vec(seg));
    assert(names_view(stack@) =~= before.push(seg@));
    true
}

/// Resolves a path inside a view: the names from the root of the view
/// down to what the path names, or `None` where the path steps back past
/// the root.
pub fn resolve_path(path: &[u8]) -> (r: Option<Vec<Vec<u8>>>)
    ensures
        match r {
            Some(names) => resolve(path@) == Some(names_view(names@)),
            None => resolve(path@) is None,
        },
{
    let mut stack: Vec<Vec<u8>> = Vec::new();
    let mut start: usize = 0;
    let mut i: usize = 0;
    let n: usize = path.len();
    proof {
        assert(names_view(stack@) =~= Seq::<Seq<u8>>::empty());
        assert(path@.skip(0) =~= path@);
    }
    while i < n
        invariant
            n == path@.len(),
            start <= i <= n,
            forall|j: int| start <= j < i ==> path@[j] != SLASH,
            resolve(path@) == walk(names_view(stack@), segments(path@.skip(start as int))),
        decreases n - i,
    {
        if path[i] == SLASH {
            let ghost tail = path@.skip(start as int);
            let ghost segs = segments(tail);
            proof {
                lemma_first_slash_at(tail, i - start);
                assert(tail.subrange(0, i - start) =~= path@.subrange(start as int, i as int));
                assert(tail.skip(i - start + 1) =~= path@.skip(i + 1));
                assert(segs.first() == path@.subrange(start as int, i as int));
                assert(segs.drop_first() =~= segments(path@.skip(i + 1)));
            }
            if !step_segment(&mut stack, slice_subrange(path, start, i)) {
                return None;
            }
            start = i + 1;
        }
        i += 1;
    }
    let ghost tail = path@.skip(start as int);
    proof {
        lemma_first_slash_at(tail, n - start);
        assert(tail =~= path@.subrange(start as int, n as int));
        assert(segments(tail) == seq![tail]);
        assert(segments(tail).first() == tail);
        assert(segments(tail).drop_first().len() == 0);
    }
    let ghost before = names_view(stack@);
    if !step_segment(&mut stack, slice_subrange(path, start, n)) {
        return None;
    }
    proof {
        let next = names_view(stack@);
        assert(walk_step(before, tail) == Some(next));
        assert(walk(next, segments(tail).drop_first()) == Some(next));
        assert(walk(before, segments(tail)) == Some(next));
    }
    Some(stack)
}

/// Builds the host path of the entry reached from `root` by `names`.
pub fn join_path(root: &[u8], names: &Vec<Vec<u8>>) -> (r: Vec<u8>)
    ensures
        r@ == join(root@, names_view(names@)),
{
    let mut out = slice_to_vec(root);
    let ghost all = names_view(names@);
    let mut i: usize = 0;
    proof {
        assert(all.take(0) =~= Seq::<Seq<u8>>::empty());
    }
    while i < names.len()
        invariant
            i <= names@.len(),
            all == names_view(names@),
            out@ == join(root@, all.take(i as int)),
        decreases names.len() - i,
    {
        out.push(SLASH);
        out.extend_from_slice(names[i].as_slice());
        proof {
            let more = all.take(i + 1);
            assert(more.drop_last() =~= all.take(i as int));
            assert(more.last() == names@[i as int]@);
        }
        i += 1;
    }
    proof {
        assert(all.take(names@.len() as int) =~= all);
    }
    out
}

/// One view of the host filesystem, as plain values.
pub struct ScopeView {
    pub root: Seq<u8>,
    pub access: FsAccess,
}

/// One view of the host filesystem: a directory and what may be done
/// below it.
pub struct FsScope {
    pub root: Vec<u8>,
    pub access: FsAccess,
}

impl View for FsScope {
    type V = ScopeView;

    open spec fn view(&self) -> ScopeView {
        ScopeView { root: self.root@, access: self.access }
    }
}

/// What asking for an operation gives: the host path to work on, or why
/// the operation is refused. An unknown token is told first, a write
/// under a read-only token next, a path that leaves the root last.
pub open spec fn authorize_spec(
    scopes: Map<u64, ScopeView>,
    token: FsToken,
    kind: FsOpKind,
    path: Seq<u8>,
) -> Result<Seq<u8>, FsError> {
    if !scopes.contains_key(token.0.0) {
        Err(FsError::UnknownToken)
    } else if kind.spec_is_write() && scopes[token.0.0].access == FsAccess::ReadOnly {
        Err(FsError::ReadOnly)
    } else {
        match resolve(path) {
            None => Err(FsError::EscapesRoot),
            Some(names) => Ok(join(scopes[token.0.0].root, names)),
        }
    }
}

/// The views that are open in one session, each under its token.
pub struct FsTable {
    scopes: Registry<FsScope>,
}

impl View for FsTable {
    type V = Map<u64, ScopeView>;

    closed spec fn view(&self) -> Map<u64, ScopeView> {
        Map::new(
            |k: u64| self.scopes@.entries.contains_key(k),
            |k: u64| self.scopes@.entries[k]@,
        )
    }
}

impl FsTable {
    /// The table is in order. Every value that `new` made and the
    /// methods below changed is so.
    pub closed spec fn wf(&self) -> bool {
        self.scopes.wf()
    }

    /// The number that the next token will carry.
    pub closed spec fn next_token(&self) -> u64 {
        self.scopes@.next
    }

    /// A session without any view.
    pub fn new() -> (t: Self)
        ensures
            t.wf(),
            t@ == Map::<u64, ScopeView>::empty(),
            t.next_token() == 0,
    {
        let t = FsTable { scopes: Registry::new() };
        assert(t@ =~= Map::<u64, ScopeView>::empty());
        t
    }

    /// Opens a view of the directory `root` for one exchange and returns
    /// its token. The token is one that no view of this session has had.
    /// `None` only where the session has used up all tokens.
    pub fn issue(&mut self, root: Vec<u8>, access: FsAccess) -> (r: Option<FsToken>)
        requires
            old(self).wf(),
        ensures
            final(self).wf(),
            match r {
                Some(token) => token.0.0 == old(self).next_token() && !old(self)@.contains_key(
                    token.0.0,
                ) && final(self)@ == old(self)@.insert(token.0.0, ScopeView { root: root@, access })
                    && final(self).next_token() == token.0.0 + 1,
                None => old(self).next_token() == u64::MAX && final(self)@ == old(self)@
                    && final(self).next_token() == old(self).next_token(),
            },
    {
        let ghost before = self@;
        let ghost scope = ScopeView { root: root@, access };
        proof {
            if self@.contains_key(self.scopes@.next) {
                self.scopes.lemma_keys_below_next(self.scopes@.next);
            }
        }
        match self.scopes.register(FsScope { root, access }) {
            Ok(k) => {
                assert(self@ =~= before.insert(k, scope));
                Some(FsToken(StreamID(k)))
            },
            Err(_) => {
                assert(self@ =~= before);
                None
            },
        }
    }

    /// Closes the view under `token` when its exchange is over. The token
    /// stands for nothing from now on. Returns whether there was a view.
    pub fn revoke(&mut self, token: FsToken) -> (r: bool)
        requires
            old(self).wf(),
        ensures
            final(self).wf(),
            r == old(self)@.contains_key(token.0.0),
            final(self)@ == old(self)@.remove(token.0.0),
            final(self).next_token() == old(self).next_token(),
    {
        let ghost before = self@;
        let r = self.scopes.remove(token.0.0);
        assert(self@ =~= before.remove(token.0.0));
        r.is_some()
    }

    /// Checks one operation and turns its path into a host path.
    pub fn authorize(&self, token: FsToken, kind: FsOpKind, path: &[u8]) -> (r: Result<
        Vec<u8>,
        FsError,
    >)
        requires
            self.wf(),
        ensures
            match r {
                Ok(p) => authorize_spec(self@, token, kind, path@) == Ok::<Seq<u8>, FsError>(p@),
                Err(e) => authorize_spec(self@, token, kind, path@) == Err::<Seq<u8>, FsError>(e),
            },
    {
        let scope = match self.scopes.get(token.0.0) {
            Some(s) => s,
            None => {
                return Err(FsError::UnknownToken);
            },
        };
        if kind.is_write() && scope.access == FsAccess::ReadOnly {
            return Err(FsError::ReadOnly);
        }
        match resolve_path(path) {
            None => Err(FsError::EscapesRoot),
            Some(names) => Ok(join_path(scope.root.as_slice(), &names)),
        }
    }
}

/// A token that grants reading only refuses every operation that writes.
pub proof fn lemma_read_only_refuses_writes(
    scopes: Map<u64, ScopeView>,
    token: FsToken,
    kind: FsOpKind,
    path: Seq<u8>,
)
    requires
        scopes.contains_key(token.0.0),
        scopes[token.0.0].access == FsAccess::ReadOnly,
        kind.spec_is_write(),
    ensures
        authorize_spec(scopes, token, kind, path) == Err::<Seq<u8>, FsError>(FsError::ReadOnly),
{
}

/// A path that leaves the root of its view is refused, whatever the
/// token and the operation.
pub proof fn lemma_leaving_root_is_refused(
    scopes: Map<u64, ScopeView>,
    token: FsToken,
    kind: FsOpKind,
    path: Seq<u8>,
)
    requires
        leaves_root(path),
    ensures
        authorize_spec(scopes, token, kind, path) is Err,
{
    lemma_resolve_none_iff_leaves_root(path);
}

/// Every host path that is handed out lies within the root of the view
/// that the token stands for.
pub proof fn lemma_authorized_path_lies_within_root(
    scopes: Map<u64, ScopeView>,
    token: FsToken,
    kind: FsOpKind,
    path: Seq<u8>,
)
    requires
        authorize_spec(scopes, token, kind, path) is Ok,
    ensures
        scopes.contains_key(token.0.0),
        lies_within(scopes[token.0.0].root, authorize_spec(scopes, token, kind, path)->Ok_0),
{
    let names = resolve(path)->Some_0;
    lemma_segments_hold_no_slash(path);
    lemma_walk_keeps_names_plain(Seq::empty(), segments(path));
    assert(forall|i: int| 0 <= i < names.len() ==> is_plain(#[trigger] names[i]));
}

/// A token whose view has been closed is refused.
pub proof fn lemma_revoked_token_is_refused(
    scopes: Map<u64, ScopeView>,
    token: FsToken,
    kind: FsOpKind,
    path: Seq<u8>,
)
    ensures
        authorize_spec(scopes.remove(token.0.0), token, kind, path) == Err::<Seq<u8>, FsError>(
            FsError::UnknownToken,
        ),
{
}

} // verus!
