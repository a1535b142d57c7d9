//! Synchronisation of files and directory trees held in memory.

use crate::delta::collision_free;
use crate::delta::delta;
use crate::delta::lemma_plan_accounts_for_source;
use crate::delta::lemma_plan_rebuilds_source;
use crate::delta::scan;
use crate::index::SignatureIndex;
use crate::instruction::apply;
use crate::instruction::copied_bytes;
use crate::instruction::literal_bytes;
use crate::instruction::reassemble;
use crate::sync::signatures_of;
use crate::sync::Syncer;
use crate::sync::SyncError;
use crate::sync::TransferResult;
use crate::tree::Child;
use crate::tree::Entry;
use crate::tree::lemma_listing_size_grows;
use crate::tree::lemma_position;
use crate::tree::listing;
use crate::tree::Listing;
use crate::tree::listing_size;
use crate::tree::position;
use crate::tree::Tree;
use crate::tree::tree_size;
use vstd::prelude::*;

verus! {

/// What a sync of `source` onto a destination that holds `reference` leaves
/// there, with the tallies of the transfer.
pub struct FileOutcome {
    pub content: Seq<u8>,
    pub new_bytes: int,
    pub reused_bytes: int,
}

/// The outcome of syncing one file: a full copy where there is no
/// destination yet, else the plan of the source against the signatures of
/// the destination, carried out on the destination.
pub open spec fn file_outcome(source: Seq<u8>, destination: Option<Seq<u8>>, block_size: int)
    -> FileOutcome {
    match destination {
        None => FileOutcome { content: source, new_bytes: source.len() as int, reused_bytes: 0 },
        Some(reference) => {
            let ops = delta(source, signatures_of(reference, block_size), block_size);
            FileOutcome {
                content: match reassemble(ops, Some(reference)) {
                    Ok(bytes) => bytes,
                    Err(_) => Seq::empty(),
                },
                new_bytes: literal_bytes(ops),
                reused_bytes: copied_bytes(ops),
            }
        },
    }
}

/// What a sync leaves at the destination, with the tallies of the transfer.
pub struct Outcome {
    pub tree: Tree,
    pub new_bytes: int,
    pub reused_bytes: int,
}

/// The entries of a destination directory while it is synced, with the
/// tallies so far.
pub struct ListingOutcome {
    pub children: Listing,
    pub new_bytes: int,
    pub reused_bytes: int,
}

/// `children` with `tree` under `name`: in the place of the entry at `at`, or
/// at the end where there was no such entry.
pub open spec fn placed(children: Listing, at: Option<int>, name: Seq<char>, tree: Tree)
    -> Listing {
    match at {
        Some(j) => children.update(j, (children[j].0, tree)),
        None => children.push((name, tree)),
    }
}

/// Whether an entry of a destination directory is removed when extraneous
/// entries are deleted: the source has no entry of its name, and it is a
/// file or a directory.
pub open spec fn is_extraneous(child: (Seq<char>, Tree), source: Listing) -> bool {
    position(source, child.0, 0) is None && !(child.1 is Other)
}

/// The entries of `children` that are not extraneous, in their order.
pub open spec fn kept(children: Listing, source: Listing) -> Listing
    decreases children.len(),
{
    if children.len() == 0 {
        Seq::empty()
    } else if is_extraneous(children[0], source) {
        kept(children.drop_first(), source)
    } else {
        seq![children[0]] + kept(children.drop_first(), source)
    }
}

/// What syncing `source` onto `destination` comes to. A file is synced as
/// `file_outcome` says. A directory is synced entry by entry, in the order
/// of the source, into the destination directory, which is made if there is
/// none; then its extraneous entries are dropped if the options say so. A
/// source that is neither is not found; then a block size of zero is
/// refused; and a file cannot be synced onto a directory nor a directory
/// onto a file.
pub open spec fn synced(options: Syncer, source: Tree, destination: Option<Tree>) -> Result<
    Outcome,
    SyncError,
>
    decreases source, 0nat,
{
    if source is Other {
        Err(SyncError::InputNotFound)
    } else if options.block_size == 0 {
        Err(SyncError::ConfigInvalid)
    } else {
        match source {
            Tree::Other => Err(SyncError::InputNotFound),
            Tree::File { content } => match destination {
                None => Ok(file_tree(file_outcome(content, None, options.block_size as int))),
                Some(Tree::File { content: old }) => Ok(
                    file_tree(file_outcome(content, Some(old), options.block_size as int)),
                ),
                Some(_) => Err(SyncError::IoFailure),
            },
            Tree::Directory { children } => match destination {
                None => synced_directory(
                    options,
                    children,
                    synced_listing(options, children, 0, fresh(Seq::empty())),
                ),
                Some(Tree::Directory { children: old }) => synced_directory(
                    options,
                    children,
                    synced_listing(options, children, 0, fresh(old)),
                ),
                Some(_) => Err(SyncError::IoFailure),
            },
        }
    }
}

/// What syncing the directory entries `source` into a destination directory
/// with the entries `destination` comes to.
pub open spec fn synced_entries(options: Syncer, source: Listing, destination: Listing) -> Result<
    Outcome,
    SyncError,
> {
    if options.block_size == 0 {
        Err(SyncError::ConfigInvalid)
    } else {
        synced_directory(
            options,
            source,
            synced_listing(options, source, 0, fresh(destination)),
        )
    }
}

/// Whether what a sync returned is what `expected` says.
pub open spec fn is_outcome(
    done: Result<(Entry, TransferResult), SyncError>,
    expected: Result<Outcome, SyncError>,
) -> bool {
    match done {
        Ok(pair) => expected == Ok::<Outcome, SyncError>(
            Outcome {
                tree: pair.0@,
                new_bytes: pair.1.new_bytes as int,
                reused_bytes: pair.1.reused_bytes as int,
            },
        ),
        Err(e) => expected == Err::<Outcome, SyncError>(e),
    }
}

/// The content of an optional entry.
pub open spec fn entry_view(entry: Option<Entry>) -> Option<Tree> {
    match entry {
        Some(e) => Some(e@),
        None => None,
    }
}

/// A directory entry holds the listing of its entries.
pub proof fn lemma_directory_view(children: Vec<Child>)
    ensures
        Entry::Directory(children)@ == (Tree::Directory { children: listing(children@) }),
{
    let whole = Entry::Directory(children)@;
    assert(whole->children =~= listing(children@));
}

/// The outcome for a file as the outcome for an entry.
pub open spec fn file_tree(outcome: FileOutcome) -> Outcome {
    Outcome {
        tree: Tree::File { content: outcome.content },
        new_bytes: outcome.new_bytes,
        reused_bytes: outcome.reused_bytes,
    }
}

/// A destination directory before anything is synced into it.
pub open spec fn fresh(children: Listing) -> ListingOutcome {
    ListingOutcome { children, new_bytes: 0, reused_bytes: 0 }
}

/// The outcome for a directory whose entries have been synced: its
/// extraneous entries are dropped if the options say so.
pub open spec fn synced_directory(
    options: Syncer,
    source: Listing,
    done: Result<ListingOutcome, SyncError>,
) -> Result<Outcome, SyncError> {
    match done {
        Err(e) => Err(e),
        Ok(all) => Ok(
            Outcome {
                tree: Tree::Directory {
                    children: if options.delete_extraneous {
                        kept(all.children, source)
                    } else {
                        all.children
                    },
                },
                new_bytes: all.new_bytes,
                reused_bytes: all.reused_bytes,
            },
        ),
    }
}

/// What syncing the entries of `source` from entry `i` on comes to, where
/// `done` is the destination directory so far. An entry that is neither a
/// file nor a directory is passed over. Any other entry is synced onto the
/// first entry of its name in the destination, or put at its end.
pub open spec fn synced_listing(options: Syncer, source: Listing, i: nat, done: ListingOutcome)
    -> Result<ListingOutcome, SyncError>
    decreases source, source.len() - i,
{
    if i >= source.len() {
        Ok(done)
    } else if source[i as int].1 is Other {
        synced_listing(options, source, i + 1, done)
    } else {
        let name = source[i as int].0;
        let at = position(done.children, name, 0);
        let old = match at {
            Some(j) => Some(done.children[j].1),
            None => None,
        };
        match synced(options, source[i as int].1, old) {
            Err(e) => Err(e),
            Ok(entry) => synced_listing(
                options,
                source,
                i + 1,
                ListingOutcome {
                    children: placed(done.children, at, name, entry.tree),
                    new_bytes: done.new_bytes + entry.new_bytes,
                    reused_bytes: done.reused_bytes + entry.reused_bytes,
                },
            ),
        }
    }
}

/// The tallies of a sync account for every byte of the files of the source.
pub proof fn lemma_synced_accounts(options: Syncer, source: Tree, destination: Option<Tree>)
    ensures
        synced(options, source, destination) matches Ok(outcome) ==> outcome.new_bytes
            + outcome.reused_bytes == tree_size(source),
    decreases source, 0nat,
{
    let block_size = options.block_size as int;
    match source {
        Tree::Other => {},
        Tree::File { content } => {
            match destination {
                Some(Tree::File { content: old }) => {
                    lemma_plan_accounts_for_source(
                        content,
                        signatures_of(old, block_size),
                        block_size,
                    );
                },
                _ => {},
            }
        },
        Tree::Directory { children } => {
            match destination {
                None => {
                    lemma_listing_accounts(options, children, 0, fresh(Seq::empty()));
                },
                Some(Tree::Directory { children: old }) => {
                    lemma_listing_accounts(options, children, 0, fresh(old));
                },
                Some(_) => {},
            }
        },
    }
}

/// From any entry on, the tallies of a directory sync grow by the bytes of
/// the files that are still to be synced.
pub proof fn lemma_listing_accounts(
    options: Syncer,
    source: Listing,
    i: nat,
    done: ListingOutcome,
)
    requires
        i <= source.len(),
    ensures
        synced_listing(options, source, i, done) matches Ok(all) ==> all.new_bytes
            + all.reused_bytes + listing_size(source, i) == done.new_bytes + done.reused_bytes
            + listing_size(source, source.len()),
    decreases source, source.len() - i,
{
    if i < source.len() {
        let next = i + 1;
        assert(listing_size(source, next) == listing_size(source, i) + tree_size(
            source[i as int].1,
        ));
        if source[i as int].1 is Other {
            lemma_listing_accounts(options, source, next, done);
        } else {
            let name = source[i as int].0;
            let at = position(done.children, name, 0);
            let old = match at {
                Some(j) => Some(done.children[j].1),
                None => None,
            };
            lemma_synced_accounts(options, source[i as int].1, old);
            match synced(options, source[i as int].1, old) {
                Ok(entry) => {
                    lemma_listing_accounts(
                        options,
                        source,
                        next,
                        ListingOutcome {
                            children: placed(done.children, at, name, entry.tree),
                            new_bytes: done.new_bytes + entry.new_bytes,
                            reused_bytes: done.reused_bytes + entry.reused_bytes,
                        },
                    );
                },
                Err(_) => {},
            }
        }
    }
}

/// Whether `tree` holds files and directories only, and no directory in it
/// has two entries of one name.
pub open spec fn is_plain(tree: Tree) -> bool
    decreases tree,
{
    match tree {
        Tree::File { .. } => true,
        Tree::Other => false,
        Tree::Directory { children } => {
            &&& forall|i: int|
                0 <= i < children.len() ==> is_plain((#[trigger] children[i]).1)
            &&& forall|i: int, j: int|
                0 <= i < j < children.len() ==> (#[trigger] children[i]).0 != (
                #[trigger] children[j]).0
        },
    }
}

/// Entries that the source names are not extraneous.
pub proof fn lemma_kept_named(children: Listing, source: Listing)
    requires
        forall|i: int|
            0 <= i < children.len() ==> position(source, (#[trigger] children[i]).0, 0) is Some,
    ensures
        kept(children, source) == children,
    decreases children.len(),
{
    if children.len() > 0 {
        let rest = children.drop_first();
        assert forall|i: int| 0 <= i < rest.len() implies position(
            source,
            (#[trigger] rest[i]).0,
            0,
        ) is Some by {
            assert(rest[i] == children[i + 1]);
        }
        lemma_kept_named(rest, source);
        assert(position(source, children[0].0, 0) is Some);
        assert(seq![children[0]] + rest =~= children);
    } else {
        assert(children =~= Seq::<(Seq<char>, Tree)>::empty());
    }
}

/// Syncing onto a destination that does not exist reproduces the source:
/// every file is copied in full, and nothing is reused.
pub proof fn lemma_sync_onto_nothing(options: Syncer, source: Tree)
    requires
        options.block_size > 0,
        is_plain(source),
    ensures
        synced(options, source, None) == Ok::<Outcome, SyncError>(
            Outcome { tree: source, new_bytes: tree_size(source) as int, reused_bytes: 0 },
        ),
    decreases source, 0nat,
{
    match source {
        Tree::Directory { children } => {
            assert(children.take(0) =~= Seq::<(Seq<char>, Tree)>::empty());
            lemma_listing_onto_nothing(options, children, 0);
            assert forall|i: int| 0 <= i < children.len() implies position(
                children,
                (#[trigger] children[i]).0,
                0,
            ) is Some by {
                lemma_position(children, children[i].0, 0);
            }
            lemma_kept_named(children, children);
        },
        _ => {},
    }
}

/// From any entry on, syncing the entries of a directory into one that
/// holds the entries before it adds the entries that follow.
pub proof fn lemma_listing_onto_nothing(options: Syncer, source: Listing, i: nat)
    requires
        options.block_size > 0,
        is_plain(Tree::Directory { children: source }),
        i <= source.len(),
    ensures
        synced_listing(
            options,
            source,
            i,
            ListingOutcome {
                children: source.take(i as int),
                new_bytes: listing_size(source, i) as int,
                reused_bytes: 0,
            },
        ) == Ok::<ListingOutcome, SyncError>(
            ListingOutcome {
                children: source,
                new_bytes: listing_size(source, source.len()) as int,
                reused_bytes: 0,
            },
        ),
    decreases source, source.len() - i,
{
    let before = source.take(i as int);
    if i < source.len() {
        let name = source[i as int].0;
        let entry = source[i as int].1;
        let whole = Tree::Directory { children: source };
        assert(whole->children == source);
        assert(is_plain(source[i as int].1));
        lemma_position(before, name, 0);
        assert(position(before, name, 0) is None) by {
            if position(before, name, 0) is Some {
                let j = position(before, name, 0)->0;
                assert(before[j] == source[j]);
            }
        }
        lemma_sync_onto_nothing(options, entry);
        assert(before.push((name, entry)) =~= source.take(i as int + 1));
        assert(listing_size(source, (i + 1) as nat) == listing_size(source, i) + tree_size(entry));
        lemma_listing_onto_nothing(options, source, (i + 1) as nat);
    } else {
        assert(before =~= source);
    }
}

/// Syncing a file leaves the content of the source at the destination, and
/// syncing it once more leaves that content as it is, unless two different
/// byte ranges share both checksums.
pub proof fn lemma_sync_idempotent(
    source: Seq<u8>,
    destination: Option<Seq<u8>>,
    block_size: int,
)
    requires
        0 < block_size,
    ensures
        ({
            let first = file_outcome(source, destination, block_size);
            let second = file_outcome(source, Some(first.content), block_size);
            (match destination {
                Some(reference) => collision_free(source, reference, block_size),
                None => true,
            }) && collision_free(source, source, block_size) ==> first.content == source
                && second.content == first.content
        }),
{
    match destination {
        Some(reference) => {
            lemma_plan_rebuilds_source(source, reference, block_size);
        },
        None => {},
    }
    lemma_plan_rebuilds_source(source, source, block_size);
}

/// Synchronises a source with a destination on the same host.
pub struct LocalSyncer {
    syncer: Syncer,
    source: String,
    destination: String,
}

impl LocalSyncer {
    /// The options of this syncer.
    pub closed spec fn options(&self) -> Syncer {
        self.syncer
    }

    /// The path of the source.
    pub closed spec fn source(&self) -> Seq<char> {
        self.source@
    }

    /// The path of the destination.
    pub closed spec fn destination(&self) -> Seq<char> {
        self.destination@
    }

    /// A syncer from `source` to `destination` with the default options.
    pub fn new(source: String, destination: String) -> (syncer: Self)
        ensures
            syncer.options() == Syncer::initial(),
            syncer.source() == source@,
            syncer.destination() == destination@,
    {
        Self { syncer: Syncer::new(), source, destination }
    }

    /// The same syncer with blocks of `block_size` bytes.
    pub fn with_block_size(self, block_size: usize) -> (syncer: Self)
        ensures
            syncer.options() == (Syncer { block_size, ..self.options() }),
            syncer.source() == self.source(),
            syncer.destination() == self.destination(),
    {
        let mut syncer = self;
        syncer.syncer.block_size = block_size;
        syncer
    }

    /// The same syncer, which keeps the source's metadata if `preserve` is set.
    pub fn with_preserve_metadata(self, preserve: bool) -> (syncer: Self)
        ensures
            syncer.options() == (Syncer { preserve_metadata: preserve, ..self.options() }),
            syncer.source() == self.source(),
            syncer.destination() == self.destination(),
    {
        let mut syncer = self;
        syncer.syncer.preserve_metadata = preserve;
        syncer
    }

    /// The same syncer, which removes from destination directories what the
    /// source does not have if `delete` is set.
    pub fn with_delete_extraneous(self, delete: bool) -> (syncer: Self)
        ensures
            syncer.options() == (Syncer { delete_extraneous: delete, ..self.options() }),
            syncer.source() == self.source(),
            syncer.destination() == self.destination(),
    {
        let mut syncer = self;
        syncer.syncer.delete_extraneous = delete;
        syncer
    }

    /// The same syncer with compression for transport switched on if
    /// `compress` is set. A local sync transports nothing: its outcome is the
    /// same either way.
    pub fn with_compression(self, compress: bool) -> (syncer: Self)
        ensures
            syncer.options() == (Syncer { compress, ..self.options() }),
            syncer.source() == self.source(),
            syncer.destination() == self.destination(),
    {
        let mut syncer = self;
        syncer.syncer.compress = compress;
        syncer
    }

    /// The options of this syncer.
    pub fn settings(&self) -> (options: Syncer)
        ensures
            options == self.options(),
    {
        self.syncer
    }

    /// The path of the source.
    pub fn source_path(&self) -> (path: &String)
        ensures
            path@ == self.source(),
    {
        &self.source
    }

    /// The path of the destination.
    pub fn destination_path(&self) -> (path: &String)
        ensures
            path@ == self.destination(),
    {
        &self.destination
    }

    /// Syncs the file content `source` onto `destination`, the content that
    /// is there now, and returns the new content of the destination with the
    /// tallies. A block size of zero is refused.
    pub fn sync_file(&self, source: &[u8], destination: Option<&[u8]>) -> (synced: Result<
        (Vec<u8>, TransferResult),
        SyncError,
    >)
        ensures
            match synced {
                Ok(done) => {
                    let outcome = file_outcome(
                        source@,
                        crate::instruction::reference_view(destination),
                        self.options().block_size as int,
                    );
                    &&& self.options().block_size > 0
                    &&& done.0@ == outcome.content
                    &&& done.1.new_bytes == outcome.new_bytes
                    &&& done.1.reused_bytes == outcome.reused_bytes
                    &&& done.1.new_bytes + done.1.reused_bytes == source.len()
                    &&& (match destination {
                        Some(reference) => collision_free(
                            source@,
                            reference@,
                            self.options().block_size as int,
                        ),
                        None => true,
                    }) ==> done.0@ == source@
                },
                Err(e) => self.options().block_size == 0 && e == SyncError::ConfigInvalid,
            },
    {
        let block_size: usize = self.syncer.block_size;
        if block_size == 0 {
            return Err(SyncError::ConfigInvalid);
        }
        match destination {
            None => Ok(self.syncer.copy_file(source)),
            Some(reference) => {
                let blocks = self.syncer.calculate_checksums(reference);
                let index = SignatureIndex::new(blocks);
                let (instructions, tally) = scan(source, &index, block_size);
                proof {
                    lemma_plan_rebuilds_source(source@, reference@, block_size as int);
                }
                match apply(instructions.as_slice(), Some(reference)) {
                    Ok(content) => Ok((content, tally)),
                    Err(e) => Err(e),
                }
            },
        }
    }
}

/// Whether `entry` is neither a file nor a directory.
pub fn is_unsupported(entry: &Entry) -> (other: bool)
    ensures
        other == (entry@ is Other),
{
    match entry {
        Entry::Other => true,
        Entry::File(_) => false,
        Entry::Directory(children) => {
            proof {
                lemma_directory_view(*children);
            }
            false
        },
    }
}

/// Removes from `children` the files and directories of which `source` has
/// no entry of the same name.
pub fn remove_extraneous(children: &mut Vec<Child>, source: &Vec<Child>)
    ensures
        listing(final(children)@) == kept(listing(old(children)@), listing(source@)),
{
    let ghost before = listing(children@);
    let ghost names = listing(source@);
    let mut j: usize = 0;
    proof {
        assert(before.take(0) =~= Seq::<(Seq<char>, Tree)>::empty());
        assert(before.skip(0) =~= before);
        assert(Seq::<(Seq<char>, Tree)>::empty() + kept(before, names) =~= kept(before, names));
    }
    while j < children.len()
        invariant
            j <= children.len(),
            names == listing(source@),
            kept(before, names) == listing(children@).take(j as int) + kept(
                listing(children@).skip(j as int),
                names,
            ),
        decreases children.len() - j,
    {
        let ghost now = listing(children@);
        let ghost rest = now.skip(j as int);
        let absent = Entry::find(source, &children[j].name).is_none();
        let extraneous = absent && !is_unsupported(&children[j].entry);
        proof {
            assert(rest[0] == now[j as int]);
            assert(rest.drop_first() =~= now.skip(j + 1));
            assert(extraneous == is_extraneous(rest[0], names));
        }
        if extraneous {
            children.remove(j);
            proof {
                let after = listing(children@);
                assert(after =~= now.remove(j as int));
                assert(after.take(j as int) =~= now.take(j as int));
                assert(after.skip(j as int) =~= now.skip(j + 1));
            }
        } else {
            proof {
                assert(now.take(j + 1) =~= now.take(j as int) + seq![now[j as int]]);
                assert(now.take(j as int) + (seq![rest[0]] + kept(now.skip(j + 1), names))
                    =~= now.take(j + 1) + kept(now.skip(j + 1), names));
            }
            j += 1;
        }
    }
    proof {
        let now = listing(children@);
        assert(now.skip(j as int) =~= Seq::<(Seq<char>, Tree)>::empty());
        assert(now.take(j as int) =~= now);
        assert(now + Seq::<(Seq<char>, Tree)>::empty() =~= now);
    }
}

impl LocalSyncer {
    /// Syncs `source` onto `destination`, what is at the destination now, and
    /// returns what is there afterwards, with the tallies. A source that
    /// does not exist is not found.
    pub fn sync(&self, source: Option<&Entry>, destination: Option<Entry>) -> (done: Result<
        (Entry, TransferResult),
        SyncError,
    >)
        requires
            source matches Some(entry) ==> tree_size(entry@) <= usize::MAX,
        ensures
            match source {
                Some(entry) => is_outcome(
                    done,
                    synced(self.options(), entry@, entry_view(destination)),
                ) && (done matches Ok(pair) ==> pair.1.new_bytes + pair.1.reused_bytes
                    == tree_size(entry@)),
                None => done matches Err(e) && e == SyncError::InputNotFound,
            },
    {
        match source {
            Some(entry) => self.sync_entry(entry, destination),
            None => Err(SyncError::InputNotFound),
        }
    }

    /// Syncs the entry `source` onto `destination`.
    pub fn sync_entry(&self, source: &Entry, destination: Option<Entry>) -> (done: Result<
        (Entry, TransferResult),
        SyncError,
    >)
        requires
            tree_size(source@) <= usize::MAX,
        ensures
            is_outcome(done, synced(self.options(), source@, entry_view(destination))),
            done matches Ok(pair) ==> pair.1.new_bytes + pair.1.reused_bytes == tree_size(
                source@,
            ),
        decreases source,
    {
        match source {
            Entry::Other => Err(SyncError::InputNotFound),
            Entry::File(content) => {
                if self.syncer.block_size == 0 {
                    return Err(SyncError::ConfigInvalid);
                }
                let synced = match destination {
                    None => self.sync_file(content.as_slice(), None),
                    Some(Entry::File(old)) => self.sync_file(
                        content.as_slice(),
                        Some(old.as_slice()),
                    ),
                    Some(Entry::Directory(children)) => {
                        proof {
                            lemma_directory_view(children);
                        }
                        return Err(SyncError::IoFailure);
                    },
                    Some(Entry::Other) => {
                        return Err(SyncError::IoFailure);
                    },
                };
                match synced {
                    Ok((bytes, tally)) => Ok((Entry::File(bytes), tally)),
                    Err(e) => Err(e),
                }
            },
            Entry::Directory(children) => {
                proof {
                    lemma_directory_view(*children);
                }
                if self.syncer.block_size == 0 {
                    return Err(SyncError::ConfigInvalid);
                }
                let old: Vec<Child> = match destination {
                    None => Vec::new(),
                    Some(Entry::Directory(old)) => {
                        proof {
                            lemma_directory_view(old);
                        }
                        old
                    },
                    Some(_) => {
                        return Err(SyncError::IoFailure);
                    },
                };
                proof {
                    if destination is None {
                        assert(listing(old@) =~= Seq::<(Seq<char>, Tree)>::empty());
                    }
                }
                match self.sync_dir(children, old) {
                    Ok((entries, tally)) => {
                        proof {
                            lemma_directory_view(entries);
                        }
                        Ok((Entry::Directory(entries), tally))
                    },
                    Err(e) => Err(e),
                }
            },
        }
    }

    /// Syncs the entries `source` of a directory into a directory with the
    /// entries `destination`, and returns the entries of that directory
    /// afterwards, with the tallies.
    pub fn sync_dir(&self, source: &Vec<Child>, destination: Vec<Child>) -> (done: Result<
        (Vec<Child>, TransferResult),
        SyncError,
    >)
        requires
            listing_size(listing(source@), source@.len()) <= usize::MAX,
        ensures
            match done {
                Ok(pair) => synced_entries(
                    self.options(),
                    listing(source@),
                    listing(destination@),
                ) == Ok::<Outcome, SyncError>(
                    Outcome {
                        tree: Tree::Directory { children: listing(pair.0@) },
                        new_bytes: pair.1.new_bytes as int,
                        reused_bytes: pair.1.reused_bytes as int,
                    },
                ) && pair.1.new_bytes + pair.1.reused_bytes == listing_size(
                    listing(source@),
                    source@.len(),
                ),
                Err(e) => synced_entries(self.options(), listing(source@), listing(destination@))
                    == Err::<Outcome, SyncError>(e),
            },
        decreases source,
    {
        if self.syncer.block_size == 0 {
            return Err(SyncError::ConfigInvalid);
        }
        let ghost options = self.options();
        let ghost names = listing(source@);
        let ghost start = fresh(listing(destination@));
        let mut entries: Vec<Child> = destination;
        let mut new_bytes: usize = 0;
        let mut reused_bytes: usize = 0;
        let mut i: usize = 0;
        while i < source.len()
            invariant
                i <= source.len(),
                options == self.options(),
                options.block_size > 0,
                names == listing(source@),
                start == fresh(listing(destination@)),
                listing_size(names, source@.len()) <= usize::MAX,
                new_bytes + reused_bytes == listing_size(names, i as nat),
                synced_listing(options, names, 0, start) == synced_listing(
                    options,
                    names,
                    i as nat,
                    ListingOutcome {
                        children: listing(entries@),
                        new_bytes: new_bytes as int,
                        reused_bytes: reused_bytes as int,
                    },
                ),
            decreases source.len() - i,
        {
            let child = &source[i];
            let ghost before = listing(entries@);
            proof {
                lemma_listing_size_grows(names, (i + 1) as nat, source@.len());
                assert(names[i as int] == (child.name@, child.entry@));
                assert(listing_size(names, (i + 1) as nat) == listing_size(names, i as nat)
                    + tree_size(names[i as int].1));
            }
            if !is_unsupported(&child.entry) {
                let at = Entry::find(&entries, &child.name);
                let ghost place = position(before, child.name@, 0);
                proof {
                    lemma_position(before, child.name@, 0);
                }
                let (name, old) = match at {
                    Some(j) => {
                        let removed = entries.remove(j);
                        (removed.name, Some(removed.entry))
                    },
                    None => (child.name.clone(), None),
                };
                let ghost removed = listing(entries@);
                proof {
                    match place {
                        Some(j) => {
                            assert(before[j] == (name@, old->0@));
                            assert(removed =~= before.remove(j));
                        },
                        None => {
                            assert(name@ == child.name@);
                        },
                    }
                    assert(entry_view(old) == match place {
                        Some(j) => Some(before[j].1),
                        None => None,
                    });
                }
                match self.sync_entry(&child.entry, old) {
                    Err(e) => {
                        return Err(e);
                    },
                    Ok((entry, tally)) => {
                        let ghost tree = entry@;
                        match at {
                            Some(j) => {
                                entries.insert(j, Child { name, entry });
                            },
                            None => {
                                entries.push(Child { name, entry });
                            },
                        }
                        proof {
                            match place {
                                Some(j) => {
                                    assert(listing(entries@) =~= removed.insert(
                                        j,
                                        (name@, tree),
                                    ));
                                },
                                None => {
                                    assert(listing(entries@) =~= removed.push((name@, tree)));
                                },
                            }
                            assert(listing(entries@) =~= placed(before, place, child.name@, tree));
                        }
                        new_bytes = new_bytes + tally.new_bytes;
                        reused_bytes = reused_bytes + tally.reused_bytes;
                    },
                }
            }
            i += 1;
        }
        if self.syncer.delete_extraneous {
            remove_extraneous(&mut entries, source);
        }
        Ok((entries, TransferResult { new_bytes, reused_bytes }))
    }
}

} // verus!
