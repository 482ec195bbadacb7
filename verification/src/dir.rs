//! The entries of a directory, read from the bytes of its content.
//!
//! An entry is a head of eight bytes and, behind it, the bytes of the name.
//! The head's `rec_len` is the distance to the next entry. There is an
//! entry at an offset as long as more than a head's worth of bytes follows.
use vstd::prelude::*;
use vstd::slice::slice_subrange;
use vstd::bytes::spec_u16_to_le_bytes;
use crate::codec::{get_bytes, patch};
use crate::config::DIR_ENTRY_HEAD_SIZE;
use crate::error::Ext2Error;
use crate::layout::DirEntryHead;

verus! {

/// The head of the entry at byte `o` of `content`.
pub open spec fn entry_head(content: Seq<u8>, o: int) -> DirEntryHead {
    DirEntryHead::parse(content.subrange(o, o + DIR_ENTRY_HEAD_SIZE))
}

/// The name of the entry at byte `o` of `content`.
pub open spec fn entry_name(content: Seq<u8>, o: int) -> Seq<u8> {
    content.subrange(o + DIR_ENTRY_HEAD_SIZE, o + DIR_ENTRY_HEAD_SIZE + entry_head(content, o).name_len)
}

/// An entry starts at byte `o` of `content`.
pub open spec fn has_entry(content: Seq<u8>, o: int) -> bool {
    0 <= o && o + DIR_ENTRY_HEAD_SIZE < content.len()
}

/// The entry at byte `o` leads on and has its whole name inside `content`.
pub open spec fn entry_ok(content: Seq<u8>, o: int) -> bool {
    &&& entry_head(content, o).rec_len > 0
    &&& o + DIR_ENTRY_HEAD_SIZE + entry_head(content, o).name_len <= content.len()
}

/// Where the entry behind the one at byte `o` starts.
pub open spec fn next_entry(content: Seq<u8>, o: int) -> int {
    o + entry_head(content, o).rec_len
}

/// What looking for a name gives.
pub enum Lookup {
    /// The first entry with the name: its head, its number among the
    /// entries, where it starts, and where the entry before it starts.
    Found { head: DirEntryHead, pos: nat, offset: int, prev_offset: int },
    /// No entry has the name.
    Missing,
    /// An entry before any with the name is broken.
    Broken,
}

/// Looks for `name` among the entries from byte `o` on, which is entry
/// number `pos`; the entry before it starts at `prev`.
pub open spec fn lookup_from(content: Seq<u8>, name: Seq<u8>, o: int, pos: nat, prev: int) -> Lookup
    decreases (if has_entry(content, o) {
        content.len() - o
    } else {
        0
    }),
{
    if !has_entry(content, o) {
        Lookup::Missing
    } else if !entry_ok(content, o) {
        Lookup::Broken
    } else if entry_name(content, o) == name {
        Lookup::Found { head: entry_head(content, o), pos, offset: o, prev_offset: prev }
    } else {
        lookup_from(content, name, next_entry(content, o), pos + 1, o)
    }
}

/// Looks for `name` among all entries.
pub open spec fn lookup(content: Seq<u8>, name: Seq<u8>) -> Lookup {
    lookup_from(content, name, 0, 0, 0)
}

/// The names of the entries from byte `o` on, in order; `None` where one of
/// the entries is broken.
pub open spec fn names_from(content: Seq<u8>, o: int) -> Option<Seq<Seq<u8>>>
    decreases (if has_entry(content, o) {
        content.len() - o
    } else {
        0
    }),
{
    if !has_entry(content, o) {
        Some(Seq::empty())
    } else if !entry_ok(content, o) {
        None
    } else {
        match names_from(content, next_entry(content, o)) {
            Some(rest) => Some(seq![entry_name(content, o)] + rest),
            None => None,
        }
    }
}

/// The names of all entries, in order.
pub open spec fn names(content: Seq<u8>) -> Option<Seq<Seq<u8>>> {
    names_from(content, 0)
}

/// The byte strings that the vectors hold.
pub open spec fn views(v: Seq<Vec<u8>>) -> Seq<Seq<u8>> {
    Seq::new(v.len(), |i: int| v[i]@)
}

/// The bytes of an entry for `inode` under `name`: the head and, behind it,
/// the name, cut at 255 bytes.
pub open spec fn entry_bytes(inode: u32, name: Seq<u8>, file_type: u8) -> Seq<u8> {
    let head = DirEntryHead::for_name(inode, name.len(), file_type);
    head.store(crate::codec::zeros(DIR_ENTRY_HEAD_SIZE as nat)) + name.subrange(0, head.name_len as int)
}

/// An entry that was found, as plain numbers.
#[derive(Clone, Copy, Debug)]
pub struct FoundEntry {
    pub head: DirEntryHead,
    /// Number of the entry among the entries of the directory.
    pub pos: usize,
    /// Where the entry starts.
    pub offset: usize,
    /// Where the entry before it starts.
    pub prev_offset: usize,
}

impl FoundEntry {
    /// This entry as the result of looking for its name.
    pub open spec fn as_lookup(self) -> Lookup {
        Lookup::Found {
            head: self.head,
            pos: self.pos as nat,
            offset: self.offset as int,
            prev_offset: self.prev_offset as int,
        }
    }
}

/// Whether two byte strings are the same.
pub fn bytes_eq(a: &[u8], b: &[u8]) -> (same: bool)
    ensures
        same == (a@ == b@),
{
    if a.len() != b.len() {
        return false;
    }
    let n = a.len();
    let mut i: usize = 0;
    while i < n
        invariant
            n == a@.len(),
            n == b@.len(),
            i <= n,
            forall|j: int| 0 <= j < i ==> a@[j] == b@[j],
        decreases n - i,
    {
        if a[i] != b[i] {
            return false;
        }
        i += 1;
    }
    assert(a@ =~= b@);
    true
}

/// Looks for the first entry with the name `name`. Fails with `Corruption`
/// where an entry before any such is broken.
pub fn find_entry(content: &[u8], name: &[u8]) -> (r: Result<Option<FoundEntry>, Ext2Error>)
    ensures
        match lookup(content@, name@) {
            Lookup::Found { head, pos, offset, prev_offset } => r matches Ok(Some(f)) && f.as_lookup()
                == lookup(content@, name@),
            Lookup::Missing => r == Ok::<Option<FoundEntry>, Ext2Error>(None),
            Lookup::Broken => r == Err::<Option<FoundEntry>, Ext2Error>(Ext2Error::Corruption),
        },
{
    let size = content.len();
    let mut offset: usize = 0;
    let mut pos: usize = 0;
    let mut prev_offset: usize = 0;
    while size > DIR_ENTRY_HEAD_SIZE && offset < size - DIR_ENTRY_HEAD_SIZE
        invariant
            size == content@.len(),
            pos <= offset,
            lookup(content@, name@) == lookup_from(content@, name@, offset as int, pos as nat, prev_offset as int),
        decreases size - offset,
    {
        let head = DirEntryHead::from_bytes(slice_subrange(content, offset, offset + DIR_ENTRY_HEAD_SIZE));
        let name_len = head.name_len as usize;
        if head.rec_len == 0 || name_len > size - DIR_ENTRY_HEAD_SIZE - offset {
            return Err(Ext2Error::Corruption);
        }
        let here = slice_subrange(
            content,
            offset + DIR_ENTRY_HEAD_SIZE,
            offset + DIR_ENTRY_HEAD_SIZE + name_len,
        );
        if bytes_eq(here, name) {
            return Ok(Some(FoundEntry { head, pos, offset, prev_offset }));
        }
        proof {
            assert(lookup_from(content@, name@, offset as int, pos as nat, prev_offset as int) == lookup_from(
                content@,
                name@,
                next_entry(content@, offset as int),
                pos as nat + 1,
                offset as int,
            ));
        }
        if head.rec_len as usize >= size - offset {
            proof {
                assert(!has_entry(content@, next_entry(content@, offset as int)));
            }
            return Ok(None);
        }
        prev_offset = offset;
        offset = offset + head.rec_len as usize;
        pos = pos + 1;
    }
    Ok(None)
}

/// The names of all entries, in order. Fails with `Corruption` where an
/// entry is broken.
pub fn list_names(content: &[u8]) -> (r: Result<Vec<Vec<u8>>, Ext2Error>)
    ensures
        match names(content@) {
            Some(all) => r matches Ok(found) && views(found@) == all,
            None => r matches Err(e) && e == Ext2Error::Corruption,
        },
{
    let size = content.len();
    let mut found: Vec<Vec<u8>> = Vec::new();
    let mut offset: usize = 0;
    let mut end = false;
    while !end && size > DIR_ENTRY_HEAD_SIZE && offset < size - DIR_ENTRY_HEAD_SIZE
        invariant
            size == content@.len(),
            end ==> names_from(content@, offset as int) == Some(Seq::<Seq<u8>>::empty()),
            names(content@) == match names_from(content@, offset as int) {
                Some(rest) => Some(views(found@) + rest),
                None => None,
            },
        decreases size - offset + if end { 0int } else { 1int },
    {
        let head = DirEntryHead::from_bytes(slice_subrange(content, offset, offset + DIR_ENTRY_HEAD_SIZE));
        let name_len = head.name_len as usize;
        if head.rec_len == 0 || name_len > size - DIR_ENTRY_HEAD_SIZE - offset {
            return Err(Ext2Error::Corruption);
        }
        let ghost before = views(found@);
        let ghost rest = names_from(content@, next_entry(content@, offset as int));
        found.push(get_bytes(content, offset + DIR_ENTRY_HEAD_SIZE, name_len));
        proof {
            assert(views(found@) =~= before + seq![entry_name(content@, offset as int)]);
            if rest is Some {
                assert(before + (seq![entry_name(content@, offset as int)] + rest.unwrap()) =~= views(found@)
                    + rest.unwrap());
            }
        }
        if head.rec_len as usize >= size - offset {
            proof {
                assert(!has_entry(content@, next_entry(content@, offset as int)));
            }
            end = true;
            offset = size;
            proof {
                assert(!has_entry(content@, size as int));
            }
        } else {
            offset = offset + head.rec_len as usize;
        }
    }
    proof {
        let rest = names_from(content@, offset as int);
        assert(rest == Some(Seq::<Seq<u8>>::empty()));
        assert(views(found@) + Seq::<Seq<u8>>::empty() =~= views(found@));
    }
    Ok(found)
}

/// The bytes of an entry that gives `inode` the name `name`.
pub fn make_entry(inode: u32, name: &[u8], file_type: u8) -> (bytes: Vec<u8>)
    ensures
        bytes@ == entry_bytes(inode, name@, file_type),
        bytes@.len() == DIR_ENTRY_HEAD_SIZE + DirEntryHead::for_name(inode, name@.len(), file_type).name_len,
        bytes@.len() <= 263,
{
    let full = name.len();
    let name_len = if full <= 255 {
        full
    } else {
        255
    };
    let head = DirEntryHead {
        inode,
        rec_len: (DIR_ENTRY_HEAD_SIZE + name_len) as u16,
        name_len: name_len as u8,
        file_type,
    };
    let mut bytes = crate::codec::zeroed(DIR_ENTRY_HEAD_SIZE);
    head.to_bytes(&mut bytes);
    let mut i: usize = 0;
    while i < name_len
        invariant
            i <= name_len <= full,
            full == name@.len(),
            bytes@ == head.store(crate::codec::zeros(DIR_ENTRY_HEAD_SIZE as nat)) + name@.subrange(0, i as int),
        decreases name_len - i,
    {
        let ghost before = bytes@;
        bytes.push(name[i]);
        assert(bytes@ =~= head.store(crate::codec::zeros(DIR_ENTRY_HEAD_SIZE as nat)) + name@.subrange(
            0,
            i + 1,
        ));
        i += 1;
    }
    bytes
}

/// From byte `o` on the content is a row of whole entries that ends where
/// the content ends.
pub open spec fn tiled_from(content: Seq<u8>, o: int) -> bool
    decreases (if has_entry(content, o) {
        content.len() - o
    } else {
        0
    }),
{
    if o == content.len() {
        true
    } else {
        &&& has_entry(content, o)
        &&& entry_ok(content, o)
        &&& entry_head(content, o).rec_len >= DIR_ENTRY_HEAD_SIZE + entry_head(content, o).name_len
        &&& next_entry(content, o) <= content.len()
        &&& tiled_from(content, next_entry(content, o))
    }
}

/// The content is a row of whole entries.
pub open spec fn tiled(content: Seq<u8>) -> bool {
    tiled_from(content, 0)
}

/// The name of an entry as it is stored: cut behind 255 bytes.
pub open spec fn stored_name(name: Seq<u8>) -> Seq<u8> {
    name.subrange(0, DirEntryHead::for_name(0, name.len(), 0).name_len as int)
}

/// What an appended entry looks like when it is read.
pub proof fn lemma_entry_bytes(inode: u32, name: Seq<u8>, file_type: u8)
    ensures
        entry_bytes(inode, name, file_type).len() == DIR_ENTRY_HEAD_SIZE + stored_name(name).len(),
        stored_name(name).len() <= 255,
        DirEntryHead::parse(entry_bytes(inode, name, file_type).subrange(0, DIR_ENTRY_HEAD_SIZE as int))
            == DirEntryHead::for_name(inode, name.len(), file_type),
        entry_bytes(inode, name, file_type).subrange(
            DIR_ENTRY_HEAD_SIZE as int,
            DIR_ENTRY_HEAD_SIZE + stored_name(name).len(),
        ) == stored_name(name),
        DirEntryHead::for_name(inode, name.len(), file_type).rec_len == DIR_ENTRY_HEAD_SIZE + stored_name(name).len(),
        DirEntryHead::for_name(inode, name.len(), file_type).name_len == stored_name(name).len(),
{
    let head = DirEntryHead::for_name(inode, name.len(), file_type);
    let zero = crate::codec::zeros(DIR_ENTRY_HEAD_SIZE as nat);
    head.lemma_store_parse(zero);
    let e = entry_bytes(inode, name, file_type);
    assert(e.subrange(0, DIR_ENTRY_HEAD_SIZE as int) =~= head.store(zero));
    assert(e.subrange(DIR_ENTRY_HEAD_SIZE as int, DIR_ENTRY_HEAD_SIZE + stored_name(name).len()) =~= stored_name(
        name,
    ));
}

/// An entry that stands inside the content stands the same in the content
/// with more behind it.
pub proof fn lemma_entry_prefix(content: Seq<u8>, more: Seq<u8>, o: int)
    requires
        has_entry(content, o),
        entry_ok(content, o),
    ensures
        entry_head(content + more, o) == entry_head(content, o),
        entry_name(content + more, o) == entry_name(content, o),
        has_entry(content + more, o),
        entry_ok(content + more, o),
        next_entry(content + more, o) == next_entry(content, o),
{
    let both = content + more;
    assert(both.subrange(o, o + DIR_ENTRY_HEAD_SIZE) =~= content.subrange(o, o + DIR_ENTRY_HEAD_SIZE));
    let len = entry_head(content, o).name_len as int;
    assert(both.subrange(o + DIR_ENTRY_HEAD_SIZE, o + DIR_ENTRY_HEAD_SIZE + len) =~= content.subrange(
        o + DIR_ENTRY_HEAD_SIZE,
        o + DIR_ENTRY_HEAD_SIZE + len,
    ));
}

/// An entry with a name that is appended to a row of whole entries makes a
/// row of whole entries, in which it is the last: the names are those
/// before and its name, and looking for a name finds what was found
/// before, or the new entry where nothing was found and the name is its.
pub proof fn lemma_appended(content: Seq<u8>, inode: u32, name: Seq<u8>, file_type: u8, o: int, x: Seq<u8>, pos: nat, prev: int)
    requires
        0 <= o <= content.len(),
        tiled_from(content, o),
        name.len() >= 1,
    ensures
        ({
            let both = content + entry_bytes(inode, name, file_type);
            &&& tiled_from(both, o)
            &&& names_from(content, o) is Some
            &&& names_from(both, o) == Some(names_from(content, o).unwrap().push(stored_name(name)))
            &&& !(lookup_from(content, x, o, pos, prev) is Broken)
            &&& lookup_from(content, x, o, pos, prev) is Found ==> lookup_from(both, x, o, pos, prev)
                == lookup_from(content, x, o, pos, prev)
            &&& lookup_from(content, x, o, pos, prev) is Missing && x != stored_name(name) ==> lookup_from(
                both,
                x,
                o,
                pos,
                prev,
            ) is Missing
            &&& lookup_from(content, x, o, pos, prev) is Missing && x == stored_name(name) ==> (lookup_from(
                both,
                x,
                o,
                pos,
                prev,
            ) matches Lookup::Found { head, offset, .. } && head == DirEntryHead::for_name(
                inode,
                name.len(),
                file_type,
            ) && offset == content.len())
        }),
    decreases content.len() - o,
{
    let e = entry_bytes(inode, name, file_type);
    let both = content + e;
    lemma_entry_bytes(inode, name, file_type);
    if o == content.len() {
        let n = content.len() as int;
        assert(both.subrange(n, n + DIR_ENTRY_HEAD_SIZE) =~= e.subrange(0, DIR_ENTRY_HEAD_SIZE as int));
        assert(entry_head(both, n) == DirEntryHead::for_name(inode, name.len(), file_type));
        assert(both.subrange(n + DIR_ENTRY_HEAD_SIZE, n + DIR_ENTRY_HEAD_SIZE + stored_name(name).len()) =~= e.subrange(
            DIR_ENTRY_HEAD_SIZE as int,
            DIR_ENTRY_HEAD_SIZE + stored_name(name).len(),
        ));
        assert(entry_name(both, n) == stored_name(name));
        assert(has_entry(both, n));
        assert(entry_ok(both, n));
        assert(next_entry(both, n) == both.len());
        assert(!has_entry(both, both.len() as int));
        assert(tiled_from(both, both.len() as int));
        assert(names_from(both, both.len() as int) == Some(Seq::<Seq<u8>>::empty()));
        assert(names_from(content, n) == Some(Seq::<Seq<u8>>::empty()));
        assert(seq![stored_name(name)] + Seq::<Seq<u8>>::empty() =~= Seq::<Seq<u8>>::empty().push(stored_name(name)));
        assert(lookup_from(content, x, n, pos, prev) is Missing);
        assert(lookup_from(both, x, both.len() as int, pos + 1, n) is Missing);
    } else {
        let next = next_entry(content, o);
        lemma_entry_prefix(content, e, o);
        lemma_appended(content, inode, name, file_type, next, x, pos + 1, o);
        let rest = names_from(content, next).unwrap();
        assert(seq![entry_name(content, o)] + rest.push(stored_name(name)) =~= (seq![entry_name(content, o)]
            + rest).push(stored_name(name)));
    }
}

/// The names of the entries from byte `o` on but for the entry at byte
/// `skip`.
pub open spec fn names_skip(content: Seq<u8>, o: int, skip: int) -> Seq<Seq<u8>>
    decreases (if has_entry(content, o) {
        content.len() - o
    } else {
        0
    }),
{
    if !has_entry(content, o) || !entry_ok(content, o) {
        Seq::empty()
    } else if o == skip {
        names_skip(content, next_entry(content, o), skip)
    } else {
        seq![entry_name(content, o)] + names_skip(content, next_entry(content, o), skip)
    }
}

/// The entries of a row of whole entries with one more appended, but for
/// that last one, are those of the row.
pub proof fn lemma_skip_last(content: Seq<u8>, inode: u32, name: Seq<u8>, file_type: u8, o: int)
    requires
        0 <= o <= content.len(),
        tiled_from(content, o),
        name.len() >= 1,
    ensures
        names_from(content, o) == Some(
            names_skip(content + entry_bytes(inode, name, file_type), o, content.len() as int),
        ),
    decreases content.len() - o,
{
    let e = entry_bytes(inode, name, file_type);
    let both = content + e;
    lemma_entry_bytes(inode, name, file_type);
    if o == content.len() {
        let n = content.len() as int;
        assert(both.subrange(n, n + DIR_ENTRY_HEAD_SIZE) =~= e.subrange(0, DIR_ENTRY_HEAD_SIZE as int));
        assert(entry_head(both, n) == DirEntryHead::for_name(inode, name.len(), file_type));
        assert(has_entry(both, n));
        assert(entry_ok(both, n));
        assert(next_entry(both, n) == both.len());
        assert(!has_entry(both, both.len() as int));
        assert(names_skip(both, both.len() as int, n) =~= Seq::<Seq<u8>>::empty());
        assert(names_skip(both, n, n) =~= Seq::<Seq<u8>>::empty());
    } else {
        let next = next_entry(content, o);
        lemma_entry_prefix(content, e, o);
        lemma_skip_last(content, inode, name, file_type, next);
    }
}

/// The content with the entry at byte `prev` made to reach `more` bytes
/// further.
pub open spec fn reaching(content: Seq<u8>, prev: int, more: u16) -> Seq<u8> {
    patch(content, prev + 4, spec_u16_to_le_bytes((entry_head(content, prev).rec_len + more) as u16))
}

/// Two contents that are the same from byte `from` on have the same
/// entries from any byte behind it on.
pub proof fn lemma_same_tail(a: Seq<u8>, b: Seq<u8>, from: int, o: int)
    requires
        a.len() == b.len(),
        0 <= from <= o,
        forall|i: int| from <= i < a.len() ==> a[i] == b[i],
    ensures
        tiled_from(a, o) == tiled_from(b, o),
        names_from(a, o) == names_from(b, o),
        forall|skip: int| names_skip(a, o, skip) == names_skip(b, o, skip),
    decreases (if has_entry(a, o) {
        a.len() - o
    } else {
        0
    }),
{
    if has_entry(a, o) {
        assert(a.subrange(o, o + DIR_ENTRY_HEAD_SIZE) =~= b.subrange(o, o + DIR_ENTRY_HEAD_SIZE));
        if entry_ok(a, o) {
            let len = entry_head(a, o).name_len as int;
            assert(a.subrange(o + DIR_ENTRY_HEAD_SIZE, o + DIR_ENTRY_HEAD_SIZE + len) =~= b.subrange(
                o + DIR_ENTRY_HEAD_SIZE,
                o + DIR_ENTRY_HEAD_SIZE + len,
            ));
            lemma_same_tail(a, b, from, next_entry(a, o));
        }
    }
    assert forall|skip: int| names_skip(a, o, skip) == names_skip(b, o, skip) by {
        if has_entry(a, o) && entry_ok(a, o) {
            assert(names_skip(a, next_entry(a, o), skip) == names_skip(b, next_entry(a, o), skip));
        }
    }
}

/// An entry that is found from byte `o` on stands at `o` or behind it; it
/// stands at `o` exactly where the entry there has the name.
pub proof fn lemma_found_behind(content: Seq<u8>, x: Seq<u8>, o: int, pos: nat, prev: int)
    requires
        lookup_from(content, x, o, pos, prev) is Found,
    ensures
        lookup_from(content, x, o, pos, prev)->offset >= o,
        has_entry(content, o),
        entry_ok(content, o),
        lookup_from(content, x, o, pos, prev)->offset == o <==> entry_name(content, o) == x,
        lookup_from(content, x, o, pos, prev)->offset == o ==> lookup_from(content, x, o, pos, prev)->prev_offset
            == prev && lookup_from(content, x, o, pos, prev)->pos == pos,
        lookup_from(content, x, o, pos, prev)->offset != o ==> lookup_from(content, x, o, pos, prev)->prev_offset
            >= o && lookup_from(content, x, o, pos, prev)->pos > pos,
    decreases (if has_entry(content, o) {
        content.len() - o
    } else {
        0
    }),
{
    if entry_name(content, o) != x {
        lemma_found_behind(content, x, next_entry(content, o), pos + 1, o);
    }
}

/// In a row of whole entries, the entries from byte `o` on without the one
/// at `skip` are all of them where none stands at `skip`.
pub proof fn lemma_skip_none(content: Seq<u8>, o: int, skip: int)
    requires
        tiled_from(content, o),
        0 <= o <= content.len(),
        skip < o,
    ensures
        names_from(content, o) == Some(names_skip(content, o, skip)),
    decreases content.len() - o,
{
    if o < content.len() {
        lemma_skip_none(content, next_entry(content, o), skip);
    }
}

/// Taking an entry out of a row of whole entries by making the one before
/// it reach over it leaves a row of whole entries, whose names are those
/// before without that of the entry: where looking for `x` from byte `o`
/// on finds an entry that is not the one at `o`, and the entry before it
/// can reach so far.
pub proof fn lemma_unlinked(content: Seq<u8>, x: Seq<u8>, o: int, pos: nat, prev: int)
    requires
        0 <= o <= content.len(),
        tiled_from(content, o),
        lookup_from(content, x, o, pos, prev) is Found,
        lookup_from(content, x, o, pos, prev)->offset != o,
        entry_head(content, lookup_from(content, x, o, pos, prev)->prev_offset).rec_len + lookup_from(
            content,
            x,
            o,
            pos,
            prev,
        )->head.rec_len <= u16::MAX,
    ensures
        ({
            let found = lookup_from(content, x, o, pos, prev);
            let after = reaching(content, found->prev_offset, found->head.rec_len);
            &&& after.len() == content.len()
            &&& o <= found->prev_offset < found->offset
            &&& found->offset + DIR_ENTRY_HEAD_SIZE < content.len()
            &&& found->prev_offset + DIR_ENTRY_HEAD_SIZE <= content.len()
            &&& found->head == entry_head(content, found->offset)
            &&& entry_name(content, found->offset) == x
            &&& tiled_from(after, o)
            &&& names_from(after, o) == Some(names_skip(content, o, found->offset))
        }),
    decreases content.len() - o,
{
    let found = lookup_from(content, x, o, pos, prev);
    let p = found->prev_offset;
    let v = found->offset;
    let next = next_entry(content, o);
    let head = entry_head(content, o);
    lemma_found_behind(content, x, o, pos, prev);
    assert(has_entry(content, o));
    assert(entry_name(content, o) != x);
    assert(found == lookup_from(content, x, next, pos + 1, o));
    lemma_found_behind(content, x, next, pos + 1, o);
    assert(tiled_from(content, next));
    vstd::bytes::lemma_auto_spec_u16_to_from_le_bytes();
    if entry_name(content, next) == x {
        // the entry behind this one is the one to take out
        assert(v == next && p == o);
        assert(tiled_from(content, next_entry(content, v)));
        let more = entry_head(content, v).rec_len;
        let after = reaching(content, o, more);
        let sum = (head.rec_len + more) as u16;
        assert(after.subrange(o, o + DIR_ENTRY_HEAD_SIZE) =~= patch(
            content.subrange(o, o + DIR_ENTRY_HEAD_SIZE),
            4,
            spec_u16_to_le_bytes(sum),
        ));
        crate::layout::lemma_rec_len_patched(content.subrange(o, o + DIR_ENTRY_HEAD_SIZE), sum);
        assert(entry_head(after, o) == (DirEntryHead { rec_len: sum, ..head }));
        assert(after.subrange(o + DIR_ENTRY_HEAD_SIZE, o + DIR_ENTRY_HEAD_SIZE + head.name_len) =~= content.subrange(
            o + DIR_ENTRY_HEAD_SIZE,
            o + DIR_ENTRY_HEAD_SIZE + head.name_len,
        ));
        let behind = next_entry(content, v);
        assert(next_entry(after, o) == behind);
        lemma_same_tail(content, after, o + DIR_ENTRY_HEAD_SIZE, behind);
        lemma_skip_none(content, behind, v);
        assert(names_skip(content, v, v) == names_skip(content, behind, v));
    } else {
        lemma_unlinked(content, x, next, pos + 1, o);
        let after = reaching(content, p, found->head.rec_len);
        assert(after.subrange(o, o + DIR_ENTRY_HEAD_SIZE) =~= content.subrange(o, o + DIR_ENTRY_HEAD_SIZE));
        assert(after.subrange(o + DIR_ENTRY_HEAD_SIZE, o + DIR_ENTRY_HEAD_SIZE + head.name_len) =~= content.subrange(
            o + DIR_ENTRY_HEAD_SIZE,
            o + DIR_ENTRY_HEAD_SIZE + head.name_len,
        ));
        assert(entry_head(after, o) == head);
        assert(entry_name(after, o) == entry_name(content, o));
    }
}

/// Where the first entry with the name `name` starts, looking from byte
/// `o` on.
pub open spec fn place_of(content: Seq<u8>, name: Seq<u8>, o: int) -> Option<int>
    decreases (if has_entry(content, o) {
        content.len() - o
    } else {
        0
    }),
{
    if !has_entry(content, o) || !entry_ok(content, o) {
        None
    } else if entry_name(content, o) == name {
        Some(o)
    } else {
        place_of(content, name, next_entry(content, o))
    }
}

/// In a row of whole entries, looking for a name finds the first entry
/// that has it, or none.
pub proof fn lemma_place(content: Seq<u8>, x: Seq<u8>, o: int, pos: nat, prev: int)
    requires
        0 <= o <= content.len(),
        tiled_from(content, o),
    ensures
        !(lookup_from(content, x, o, pos, prev) is Broken),
        lookup_from(content, x, o, pos, prev) is Found <==> place_of(content, x, o) is Some,
        lookup_from(content, x, o, pos, prev) matches Lookup::Found { head, offset, .. } ==> place_of(content, x, o)
            == Some(offset) && head == entry_head(content, offset) && o <= offset && has_entry(content, offset),
    decreases content.len() - o,
{
    if o < content.len() && entry_name(content, o) != x {
        lemma_place(content, x, next_entry(content, o), pos + 1, o);
    }
}

/// In a row of whole entries, an entry that is found behind the first
/// starts where the entry before it ends, and ends inside the content.
pub proof fn lemma_found_reach(content: Seq<u8>, x: Seq<u8>, o: int, pos: nat, prev: int)
    requires
        0 <= o <= content.len(),
        tiled_from(content, o),
        lookup_from(content, x, o, pos, prev) is Found,
        lookup_from(content, x, o, pos, prev)->offset != o,
    ensures
        ({
            let found = lookup_from(content, x, o, pos, prev);
            &&& o <= found->prev_offset
            &&& next_entry(content, found->prev_offset) == found->offset
            &&& found->offset + found->head.rec_len <= content.len()
        }),
    decreases content.len() - o,
{
    lemma_found_behind(content, x, o, pos, prev);
    let found = lookup_from(content, x, o, pos, prev);
    let next = next_entry(content, o);
    assert(has_entry(content, o) && entry_ok(content, o));
    assert(entry_name(content, o) != x);
    assert(found == lookup_from(content, x, next, pos + 1, o));
    assert(tiled_from(content, next));
    lemma_found_behind(content, x, next, pos + 1, o);
    if entry_name(content, next) != x {
        lemma_found_reach(content, x, next, pos + 1, o);
    } else {
        assert(found->offset == next);
        assert(found->prev_offset == o);
        assert(found->head == entry_head(content, next));
        assert(has_entry(content, next) && entry_ok(content, next));
        assert(next_entry(content, next) <= content.len());
    }
}

/// Two contents that are the same from byte `from` on have an entry with
/// a name at the same place behind it, with the same head.
pub proof fn lemma_same_places(a: Seq<u8>, b: Seq<u8>, from: int, o: int, y: Seq<u8>)
    requires
        a.len() == b.len(),
        0 <= from <= o,
        forall|i: int| from <= i < a.len() ==> a[i] == b[i],
    ensures
        place_of(a, y, o) == place_of(b, y, o),
        place_of(a, y, o) matches Some(at) ==> at >= o && entry_head(a, at) == entry_head(b, at),
    decreases (if has_entry(a, o) {
        a.len() - o
    } else {
        0
    }),
{
    if has_entry(a, o) {
        assert(a.subrange(o, o + DIR_ENTRY_HEAD_SIZE) =~= b.subrange(o, o + DIR_ENTRY_HEAD_SIZE));
        if entry_ok(a, o) {
            let len = entry_head(a, o).name_len as int;
            assert(a.subrange(o + DIR_ENTRY_HEAD_SIZE, o + DIR_ENTRY_HEAD_SIZE + len) =~= b.subrange(
                o + DIR_ENTRY_HEAD_SIZE,
                o + DIR_ENTRY_HEAD_SIZE + len,
            ));
            if entry_name(a, o) != y {
                lemma_same_places(a, b, from, next_entry(a, o), y);
            }
        }
    }
}

/// Taking an entry out of a row of whole entries leaves the entries with
/// other names where they were, and leading where they led.
pub proof fn lemma_others_stay(content: Seq<u8>, x: Seq<u8>, y: Seq<u8>, o: int, pos: nat, prev: int)
    requires
        0 <= o <= content.len(),
        tiled_from(content, o),
        lookup_from(content, x, o, pos, prev) is Found,
        lookup_from(content, x, o, pos, prev)->offset != o,
        entry_head(content, lookup_from(content, x, o, pos, prev)->prev_offset).rec_len + lookup_from(
            content,
            x,
            o,
            pos,
            prev,
        )->head.rec_len <= u16::MAX,
        y != x,
    ensures
        ({
            let found = lookup_from(content, x, o, pos, prev);
            let after = reaching(content, found->prev_offset, found->head.rec_len);
            &&& place_of(after, y, o) == place_of(content, y, o)
            &&& place_of(content, y, o) matches Some(at) ==> {
                &&& entry_head(after, at).inode == entry_head(content, at).inode
                &&& entry_head(after, at).file_type == entry_head(content, at).file_type
            }
        }),
    decreases content.len() - o,
{
    let found = lookup_from(content, x, o, pos, prev);
    let p = found->prev_offset;
    let v = found->offset;
    let next = next_entry(content, o);
    let head = entry_head(content, o);
    lemma_found_behind(content, x, o, pos, prev);
    lemma_found_behind(content, x, next, pos + 1, o);
    lemma_unlinked(content, x, o, pos, prev);
    vstd::bytes::lemma_auto_spec_u16_to_from_le_bytes();
    let after = reaching(content, p, found->head.rec_len);
    if entry_name(content, next) == x {
        let more = entry_head(content, v).rec_len;
        let sum = (head.rec_len + more) as u16;
        assert(after.subrange(o, o + DIR_ENTRY_HEAD_SIZE) =~= patch(
            content.subrange(o, o + DIR_ENTRY_HEAD_SIZE),
            4,
            spec_u16_to_le_bytes(sum),
        ));
        crate::layout::lemma_rec_len_patched(content.subrange(o, o + DIR_ENTRY_HEAD_SIZE), sum);
        assert(entry_head(after, o) == (DirEntryHead { rec_len: sum, ..head }));
        assert(after.subrange(o + DIR_ENTRY_HEAD_SIZE, o + DIR_ENTRY_HEAD_SIZE + head.name_len) =~= content.subrange(
            o + DIR_ENTRY_HEAD_SIZE,
            o + DIR_ENTRY_HEAD_SIZE + head.name_len,
        ));
        let behind = next_entry(content, v);
        assert(next_entry(after, o) == behind);
        lemma_same_places(content, after, o + DIR_ENTRY_HEAD_SIZE, behind, y);
        assert(place_of(content, y, next) == place_of(content, y, behind));
    } else {
        lemma_others_stay(content, x, y, next, pos + 1, o);
        assert(after.subrange(o, o + DIR_ENTRY_HEAD_SIZE) =~= content.subrange(o, o + DIR_ENTRY_HEAD_SIZE));
        assert(after.subrange(o + DIR_ENTRY_HEAD_SIZE, o + DIR_ENTRY_HEAD_SIZE + head.name_len) =~= content.subrange(
            o + DIR_ENTRY_HEAD_SIZE,
            o + DIR_ENTRY_HEAD_SIZE + head.name_len,
        ));
        assert(entry_head(after, o) == head);
        assert(entry_name(after, o) == entry_name(content, o));
    }
}

/// The entries of a row of whole entries without the first one that has
/// the name `x`, which is number `k` among them, are its names without the
/// `k`-th.
pub proof fn lemma_skip_at(content: Seq<u8>, x: Seq<u8>, o: int, k: int)
    requires
        0 <= o <= content.len(),
        tiled_from(content, o),
        names_from(content, o) is Some,
        0 <= k < names_from(content, o).unwrap().len(),
        names_from(content, o).unwrap()[k] == x,
        forall|j: int| 0 <= j < k ==> names_from(content, o).unwrap()[j] != x,
    ensures
        place_of(content, x, o) is Some,
        names_skip(content, o, place_of(content, x, o).unwrap()) == names_from(content, o).unwrap().remove(k),
    decreases content.len() - o,
{
    let all = names_from(content, o).unwrap();
    assert(has_entry(content, o));
    let next = next_entry(content, o);
    let rest = names_from(content, next).unwrap();
    assert(all =~= seq![entry_name(content, o)] + rest);
    if entry_name(content, o) == x {
        assert(all[0] == x);
        assert(k == 0);
        lemma_skip_none(content, next, o);
        assert(all.remove(0) =~= rest);
    } else {
        assert(all[0] != x);
        assert(k >= 1);
        assert(rest[k - 1] == all[k]);
        assert forall|j: int| 0 <= j < k - 1 implies rest[j] != x by {
            assert(rest[j] == all[j + 1]);
        }
        lemma_skip_at(content, x, next, k - 1);
        let at = place_of(content, x, next).unwrap();
        assert(names_skip(content, o, at) == seq![entry_name(content, o)] + names_skip(content, next, at)) by {
            lemma_same_places(content, content, 0, next, x);
        }
        assert(all.remove(k) =~= seq![entry_name(content, o)] + rest.remove(k - 1));
    }
}

/// In a row of whole entries, a name that looking finds no entry for is
/// the name of none.
pub proof fn lemma_missing_name(content: Seq<u8>, x: Seq<u8>, o: int, pos: nat, prev: int, k: int)
    requires
        0 <= o <= content.len(),
        tiled_from(content, o),
        lookup_from(content, x, o, pos, prev) is Missing,
        names_from(content, o) is Some,
        0 <= k < names_from(content, o).unwrap().len(),
    ensures
        names_from(content, o).unwrap()[k] != x,
    decreases content.len() - o,
{
    let all = names_from(content, o).unwrap();
    assert(has_entry(content, o));
    let next = next_entry(content, o);
    let rest = names_from(content, next).unwrap();
    assert(all =~= seq![entry_name(content, o)] + rest);
    if k > 0 {
        assert(all[k] == rest[k - 1]);
        lemma_missing_name(content, x, next, pos + 1, o, k - 1);
    }
}

/// In a row of whole entries, the first entry with a name is one of the
/// entries: the lemma gives its number.
pub proof fn lemma_place_index(content: Seq<u8>, x: Seq<u8>, o: int) -> (k: int)
    requires
        0 <= o <= content.len(),
        tiled_from(content, o),
        place_of(content, x, o) is Some,
        names_from(content, o) is Some,
    ensures
        0 <= k < names_from(content, o).unwrap().len(),
        names_from(content, o).unwrap()[k] == x,
        forall|j: int| 0 <= j < k ==> names_from(content, o).unwrap()[j] != x,
    decreases content.len() - o,
{
    let all = names_from(content, o).unwrap();
    assert(has_entry(content, o));
    let next = next_entry(content, o);
    let rest = names_from(content, next).unwrap();
    assert(all =~= seq![entry_name(content, o)] + rest);
    if entry_name(content, o) == x {
        0
    } else {
        let k = lemma_place_index(content, x, next);
        assert forall|j: int| 0 <= j < k + 1 implies all[j] != x by {
            if j > 0 {
                assert(all[j] == rest[j - 1]);
            }
        }
        assert(all[k + 1] == rest[k]);
        k + 1
    }
}

/// Once the entry with a name is taken out of a row of whole entries with
/// a name each, looking for the name finds nothing.
pub proof fn lemma_name_gone(before: Seq<u8>, after: Seq<u8>, x: Seq<u8>)
    requires
        tiled(before),
        tiled(after),
        lookup(before, x) is Found,
        names(before) is Some,
        names(before).unwrap().no_duplicates(),
        names(after) == Some(names_skip(before, 0, lookup(before, x)->offset)),
    ensures
        lookup(after, x) is Missing,
{
    let all = names(before).unwrap();
    lemma_place(before, x, 0, 0, 0);
    lemma_place(after, x, 0, 0, 0);
    let k = lemma_place_index(before, x, 0);
    lemma_skip_at(before, x, 0, k);
    if lookup(after, x) is Found {
        let j = lemma_place_index(after, x, 0);
        let left = all.remove(k);
        assert(left[j] == x);
        if j < k {
            assert(left[j] == all[j]);
        } else {
            assert(left[j] == all[j + 1]);
        }
        assert(false);
    }
}

} // verus!
