//! The media store: up to three named artifacts per record.
//!
//! An artifact is keyed by `(record id, kind)` and holds plain bytes with no
//! further metadata. The on-disk location of an artifact is derived solely
//! from the numeric id and the kind's fixed name; `media_path` computes it.

use vstd::prelude::*;
use vstd::arithmetic::div_mod::lemma_div_is_strictly_smaller;
use vstd::slice::slice_to_vec;
use vstd::string::StringExecFns;

verus! {

broadcast use vstd::string::group_string_axioms;

/// The three artifact categories a record can carry.
#[derive(Clone, Copy, Debug, PartialEq, Eq, Structural)]
pub enum MediaKind {
    Photo,
    Invoice,
    Notice,
}

impl MediaKind {
    /// The fixed file name of this kind of artifact.
    pub open spec fn name_spec(self) -> Seq<char> {
        match self {
            MediaKind::Photo => "photo"@,
            MediaKind::Invoice => "invoice"@,
            MediaKind::Notice => "notice"@,
        }
    }

    /// The fixed file name of this kind of artifact.
    pub fn as_str(&self) -> (r: &'static str)
        ensures
            r@ == self.name_spec(),
    {
        match self {
            MediaKind::Photo => "photo",
            MediaKind::Invoice => "invoice",
            MediaKind::Notice => "notice",
        }
    }
}

/// One stored artifact: the owning record's id, the kind, and the bytes.
pub struct MediaEntry {
    pub owner: i32,
    pub kind: MediaKind,
    pub bytes: Vec<u8>,
}

/// The key an entry is stored under.
pub open spec fn entry_key(e: MediaEntry) -> (int, MediaKind) {
    (e.owner as int, e.kind)
}

/// No two entries share a key.
pub open spec fn keys_unique(entries: Seq<MediaEntry>) -> bool {
    forall|i: int, j: int|
        0 <= i < j < entries.len() ==> entry_key(#[trigger] entries[i]) != entry_key(
            #[trigger] entries[j],
        )
}

/// The artifacts a sequence of entries holds, as a map from key to bytes;
/// a later entry for the same key wins.
pub open spec fn media_map(entries: Seq<MediaEntry>) -> Map<(int, MediaKind), Seq<u8>>
    decreases entries.len(),
{
    if entries.len() == 0 {
        Map::empty()
    } else {
        media_map(entries.drop_last()).insert(
            entry_key(entries.last()),
            entries.last().bytes@,
        )
    }
}

/// The media store.
pub struct MediaStore {
    pub entries: Vec<MediaEntry>,
}

impl MediaStore {
    /// One key maps to one artifact.
    pub open spec fn wf(self) -> bool {
        keys_unique(self.entries@)
    }

    /// What the store holds, as a map from `(id, kind)` to bytes.
    pub open spec fn contents(self) -> Map<(int, MediaKind), Seq<u8>> {
        media_map(self.entries@)
    }

    /// An empty store.
    pub fn new() -> (m: MediaStore)
        ensures
            m.wf(),
            m.contents() == Map::<(int, MediaKind), Seq<u8>>::empty(),
    {
        MediaStore { entries: Vec::new() }
    }

    /// The position of the entry under `(id, kind)`, if any.
    fn find_entry(&self, id: i32, kind: MediaKind) -> (r: Option<usize>)
        ensures
            match r {
                Some(p) => p < self.entries@.len() && entry_key(self.entries@[p as int]) == (
                    id as int,
                    kind,
                ),
                None => forall|i: int|
                    0 <= i < self.entries@.len() ==> entry_key(#[trigger] self.entries@[i]) != (
                        id as int,
                        kind,
                    ),
            },
    {
        let n = self.entries.len();
        let mut i: usize = 0;
        while i < n
            invariant
                0 <= i <= n,
                n == self.entries@.len(),
                forall|k: int|
                    0 <= k < i ==> entry_key(#[trigger] self.entries@[k]) != (id as int, kind),
            decreases n - i,
        {
            if self.entries[i].owner == id && kind_eq(&self.entries[i].kind, &kind) {
                return Some(i);
            }
            i = i + 1;
        }
        None
    }

    /// Whether an artifact is stored under `(id, kind)`.
    pub fn has_media(&self, id: i32, kind: MediaKind) -> (b: bool)
        requires
            self.wf(),
        ensures
            b == self.contents().contains_key((id as int, kind)),
    {
        proof {
            lemma_media_map_props(self.entries@);
        }
        match self.find_entry(id, kind) {
            Some(_) => true,
            None => false,
        }
    }

    /// The bytes stored under `(id, kind)`; absence is a normal empty
    /// result, never an error.
    pub fn open(&self, id: i32, kind: MediaKind) -> (r: Option<Vec<u8>>)
        requires
            self.wf(),
        ensures
            match r {
                Some(b) => self.contents().contains_key((id as int, kind)) && b@
                    == self.contents()[(id as int, kind)],
                None => !self.contents().contains_key((id as int, kind)),
            },
    {
        proof {
            lemma_media_map_props(self.entries@);
        }
        match self.find_entry(id, kind) {
            Some(p) => Some(slice_to_vec(self.entries[p].bytes.as_slice())),
            None => None,
        }
    }

    /// Store bytes under `(id, kind)`, overwriting any prior artifact.
    /// Empty bytes mean "no replacement supplied": the store, including any
    /// existing artifact under the key, is left exactly as it was.
    pub fn write(&mut self, id: i32, kind: MediaKind, bytes: &[u8])
        requires
            old(self).wf(),
        ensures
            final(self).wf(),
            bytes@.len() == 0 ==> *final(self) == *old(self),
            bytes@.len() > 0 ==> final(self).contents() == old(self).contents().insert(
                (id as int, kind),
                bytes@,
            ),
    {
        if bytes.is_empty() {
            return ;
        }
        let ghost entries0 = self.entries@;
        match self.find_entry(id, kind) {
            Some(p) => {
                proof {
                    lemma_media_map_remove(entries0, p as int);
                    entries0.remove_ensures(p as int);
                }
                self.entries.remove(p);
                proof {
                    let entries1 = self.entries@;
                    assert forall|i: int, j: int| 0 <= i < j < entries1.len() implies entry_key(
                        #[trigger] entries1[i],
                    ) != entry_key(#[trigger] entries1[j]) by {
                        let i0 = if i < p {
                            i
                        } else {
                            i + 1
                        };
                        let j0 = if j < p {
                            j
                        } else {
                            j + 1
                        };
                        assert(entries1[i] == entries0[i0]);
                        assert(entries1[j] == entries0[j0]);
                    }
                    assert forall|i: int| 0 <= i < entries1.len() implies entry_key(
                        #[trigger] entries1[i],
                    ) != (id as int, kind) by {
                        let i0 = if i < p {
                            i
                        } else {
                            i + 1
                        };
                        assert(entries1[i] == entries0[i0]);
                    }
                }
                self.push_entry(id, kind, bytes);
                proof {
                    assert(self.contents() =~= media_map(entries0).insert(
                        (id as int, kind),
                        bytes@,
                    ));
                }
            },
            None => {
                self.push_entry(id, kind, bytes);
            },
        }
    }

    /// Append a fresh entry; the key must be absent.
    fn push_entry(&mut self, id: i32, kind: MediaKind, bytes: &[u8])
        requires
            keys_unique(old(self).entries@),
            forall|i: int|
                0 <= i < old(self).entries@.len() ==> entry_key(
                    #[trigger] old(self).entries@[i],
                ) != (id as int, kind),
        ensures
            final(self).wf(),
            final(self).contents() == old(self).contents().insert((id as int, kind), bytes@),
    {
        let ghost entries0 = self.entries@;
        let e = MediaEntry { owner: id, kind, bytes: slice_to_vec(bytes) };
        self.entries.push(e);
        proof {
            let entries1 = self.entries@;
            assert(entries1.drop_last() =~= entries0);
            assert(entries1.last() == e);
            assert forall|i: int, j: int| 0 <= i < j < entries1.len() implies entry_key(
                #[trigger] entries1[i],
            ) != entry_key(#[trigger] entries1[j]) by {
                if j < entries1.len() - 1 {
                    assert(entries1[i] == entries0[i]);
                    assert(entries1[j] == entries0[j]);
                } else {
                    assert(entries1[i] == entries0[i]);
                }
            }
        }
    }

    /// Remove every artifact of one record: part of hard deletion, never of
    /// trashing. Artifacts of every other record are untouched.
    pub fn delete_all(&mut self, id: i32)
        requires
            old(self).wf(),
        ensures
            final(self).wf(),
            forall|k: (int, MediaKind)|
                #![trigger final(self).contents().contains_key(k)]
                final(self).contents().contains_key(k) == (old(self).contents().contains_key(k)
                    && k.0 != id as int),
            forall|k: (int, MediaKind)|
                #![trigger final(self).contents()[k]]
                final(self).contents().contains_key(k) ==> final(self).contents()[k] == old(
                    self,
                ).contents()[k],
    {
        let ghost entries0 = self.entries@;
        let n = self.entries.len();
        let mut kept: Vec<MediaEntry> = Vec::new();
        let mut i: usize = 0;
        while i < n
            invariant
                0 <= i <= n,
                n == entries0.len(),
                self.entries@ == entries0,
                keys_unique(entries0),
                keys_unique(kept@),
                forall|k: (int, MediaKind)|
                    #![trigger media_map(kept@).contains_key(k)]
                    media_map(kept@).contains_key(k) == (media_map(
                        entries0.subrange(0, i as int),
                    ).contains_key(k) && k.0 != id as int),
                forall|k: (int, MediaKind)|
                    #![trigger media_map(kept@)[k]]
                    media_map(kept@).contains_key(k) ==> media_map(kept@)[k] == media_map(
                        entries0.subrange(0, i as int),
                    )[k],
            decreases n - i,
        {
            let ghost kept0 = kept@;
            let ghost sub0 = entries0.subrange(0, i as int);
            let ghost sub1 = entries0.subrange(0, i + 1 as int);
            proof {
                assert(sub1.drop_last() =~= sub0);
                assert(sub1.last() == entries0[i as int]);
            }
            let ghost ke = entry_key(entries0[i as int]);
            let ghost be = entries0[i as int].bytes@;
            proof {
                assert(media_map(sub1) == media_map(sub0).insert(ke, be));
            }
            let e = &self.entries[i];
            if e.owner != id {
                let copy = MediaEntry {
                    owner: e.owner,
                    kind: e.kind,
                    bytes: slice_to_vec(e.bytes.as_slice()),
                };
                kept.push(copy);
                proof {
                    assert(kept@.drop_last() =~= kept0);
                    assert(kept@.last().bytes@ == be);
                    assert(entry_key(kept@.last()) == ke);
                    assert(media_map(kept@) == media_map(kept0).insert(ke, be));
                    assert forall|a: int, b: int| 0 <= a < b < kept@.len() implies entry_key(
                        #[trigger] kept@[a],
                    ) != entry_key(#[trigger] kept@[b]) by {
                        if b < kept@.len() - 1 {
                            assert(kept@[a] == kept0[a]);
                            assert(kept@[b] == kept0[b]);
                        } else {
                            assert(kept@[a] == kept0[a]);
                            // the keys kept so far come from entries before i,
                            // whose keys differ from this one by uniqueness
                            assert(media_map(kept0).contains_key(entry_key(kept0[a])))
                                by {
                                lemma_media_map_props(kept0);
                            }
                            assert(media_map(sub0).contains_key(entry_key(kept0[a])));
                            lemma_media_map_props(sub0);
                            let j = choose|j: int|
                                0 <= j < sub0.len() && entry_key(sub0[j]) == entry_key(
                                    kept0[a],
                                );
                            assert(sub0[j] == entries0[j]);
                            assert(entry_key(entries0[j]) != entry_key(entries0[i as int]));
                        }
                    }
                    assert forall|k: (int, MediaKind)|
                        #[trigger] media_map(kept@).contains_key(k) == (media_map(
                        sub1,
                    ).contains_key(k) && k.0 != id as int) by {
                        if k != ke {
                            assert(media_map(kept@).contains_key(k) == media_map(
                                kept0,
                            ).contains_key(k));
                            assert(media_map(sub1).contains_key(k) == media_map(
                                sub0,
                            ).contains_key(k));
                        }
                    }
                    assert forall|k: (int, MediaKind)|
                        #[trigger] media_map(kept@).contains_key(k) implies media_map(kept@)[k]
                        == media_map(sub1)[k] by {
                        if k != ke {
                            assert(media_map(kept@)[k] == media_map(kept0)[k]);
                            assert(media_map(sub1)[k] == media_map(sub0)[k]);
                            assert(media_map(kept0).contains_key(k));
                        }
                    }
                }
            } else {
                proof {
                    assert(ke.0 == id as int);
                    assert forall|k: (int, MediaKind)|
                        #[trigger] media_map(kept@).contains_key(k) == (media_map(
                        sub1,
                    ).contains_key(k) && k.0 != id as int) by {
                        if k != ke {
                            assert(media_map(sub1).contains_key(k) == media_map(
                                sub0,
                            ).contains_key(k));
                        }
                    }
                    assert forall|k: (int, MediaKind)|
                        #[trigger] media_map(kept@).contains_key(k) implies media_map(kept@)[k]
                        == media_map(sub1)[k] by {
                        assert(k != ke);
                        assert(media_map(sub1)[k] == media_map(sub0)[k]);
                    }
                }
            }
            i = i + 1;
        }
        proof {
            assert(entries0.subrange(0, n as int) =~= entries0);
        }
        self.entries = kept;
    }
}

/// Runtime equality of two artifact kinds.
fn kind_eq(a: &MediaKind, b: &MediaKind) -> (r: bool)
    ensures
        r == (a == b),
{
    match (a, b) {
        (MediaKind::Photo, MediaKind::Photo) => true,
        (MediaKind::Invoice, MediaKind::Invoice) => true,
        (MediaKind::Notice, MediaKind::Notice) => true,
        _ => false,
    }
}

/// What `media_map` holds: exactly the keys of the entries, each mapped to
/// the bytes of its (unique) entry.
proof fn lemma_media_map_props(entries: Seq<MediaEntry>)
    ensures
        forall|i: int|
            0 <= i < entries.len() ==> media_map(entries).contains_key(
                entry_key(#[trigger] entries[i]),
            ),
        forall|k: (int, MediaKind)|
            #![trigger media_map(entries).contains_key(k)]
            media_map(entries).contains_key(k) ==> exists|i: int|
                0 <= i < entries.len() && entry_key(entries[i]) == k,
        keys_unique(entries) ==> forall|i: int|
            0 <= i < entries.len() ==> media_map(entries)[entry_key(#[trigger] entries[i])]
                == entries[i].bytes@,
    decreases entries.len(),
{
    if entries.len() > 0 {
        let dl = entries.drop_last();
        lemma_media_map_props(dl);
        assert(forall|i: int| 0 <= i < dl.len() ==> #[trigger] dl[i] == entries[i]);
        if keys_unique(entries) {
            assert(keys_unique(dl));
        }
        assert forall|i: int| 0 <= i < entries.len() implies media_map(entries).contains_key(
            entry_key(#[trigger] entries[i]),
        ) by {
            if i < entries.len() - 1 {
                assert(media_map(dl).contains_key(entry_key(dl[i])));
            }
        }
        assert forall|k: (int, MediaKind)|
            #[trigger] media_map(entries).contains_key(k) implies exists|i: int|
            0 <= i < entries.len() && entry_key(entries[i]) == k by {
            if k == entry_key(entries.last()) {
                assert(entry_key(entries[entries.len() - 1]) == k);
            } else {
                assert(media_map(dl).contains_key(k));
                let i = choose|i: int| 0 <= i < dl.len() && entry_key(dl[i]) == k;
                assert(entry_key(entries[i]) == k);
            }
        }
        if keys_unique(entries) {
            assert forall|i: int| 0 <= i < entries.len() implies media_map(entries)[entry_key(
                #[trigger] entries[i],
            )] == entries[i].bytes@ by {
                if i < entries.len() - 1 {
                    assert(entry_key(entries[i]) != entry_key(entries[entries.len() - 1]));
                    assert(media_map(dl)[entry_key(dl[i])] == dl[i].bytes@);
                }
            }
        }
    }
}

/// Removing the entry at `p` removes exactly its key from the map.
proof fn lemma_media_map_remove(entries: Seq<MediaEntry>, p: int)
    requires
        keys_unique(entries),
        0 <= p < entries.len(),
    ensures
        media_map(entries.remove(p)) == media_map(entries).remove(entry_key(entries[p])),
    decreases entries.len(),
{
    let k = entry_key(entries[p]);
    lemma_media_map_props(entries);
    if p == entries.len() - 1 {
        let dl = entries.drop_last();
        assert(entries.remove(p) =~= dl);
        lemma_media_map_props(dl);
        assert(keys_unique(dl));
        assert(!media_map(dl).contains_key(k)) by {
            if media_map(dl).contains_key(k) {
                let i = choose|i: int| 0 <= i < dl.len() && entry_key(dl[i]) == k;
                assert(entry_key(entries[i]) == entry_key(entries[p]));
            }
        }
        assert(media_map(entries.remove(p)) =~= media_map(entries).remove(k));
    } else {
        let dl = entries.drop_last();
        assert(keys_unique(dl));
        assert(dl[p] == entries[p]);
        lemma_media_map_remove(dl, p);
        assert(entries.remove(p).drop_last() =~= dl.remove(p));
        assert(entries.remove(p).last() == entries.last());
        assert(entry_key(entries.last()) != k);
        assert(media_map(entries.remove(p)) =~= media_map(entries).remove(k));
    }
}

/// The decimal digit characters.
pub open spec fn digit_char(d: int) -> char {
    if d == 0 {
        '0'
    } else if d == 1 {
        '1'
    } else if d == 2 {
        '2'
    } else if d == 3 {
        '3'
    } else if d == 4 {
        '4'
    } else if d == 5 {
        '5'
    } else if d == 6 {
        '6'
    } else if d == 7 {
        '7'
    } else if d == 8 {
        '8'
    } else {
        '9'
    }
}

/// The decimal digits of a non-negative number, most significant first.
pub open spec fn dec_digits(n: nat) -> Seq<char>
    decreases n,
{
    if n < 10 {
        seq![digit_char(n as int)]
    } else {
        dec_digits(n / 10).push(digit_char((n % 10) as int))
    }
}

/// The decimal text of a number, with a leading minus sign when negative.
pub open spec fn int_str(n: int) -> Seq<char> {
    if n < 0 {
        seq!['-'] + dec_digits((-n) as nat)
    } else {
        dec_digits(n as nat)
    }
}

/// One decimal digit as text.
fn digit_str(d: u64) -> (r: &'static str)
    requires
        d < 10,
    ensures
        r@ == seq![digit_char(d as int)],
{
    proof {
        reveal_strlit("0");
        reveal_strlit("1");
        reveal_strlit("2");
        reveal_strlit("3");
        reveal_strlit("4");
        reveal_strlit("5");
        reveal_strlit("6");
        reveal_strlit("7");
        reveal_strlit("8");
        reveal_strlit("9");
    }
    match d {
        0 => "0",
        1 => "1",
        2 => "2",
        3 => "3",
        4 => "4",
        5 => "5",
        6 => "6",
        7 => "7",
        8 => "8",
        _ => "9",
    }
}

/// Append the decimal digits of `n`.
fn push_decimal(s: &mut String, n: u64)
    ensures
        final(s)@ == old(s)@ + dec_digits(n as nat),
    decreases n,
{
    if n >= 10 {
        proof {
            lemma_div_is_strictly_smaller(n as int, 10);
        }
        push_decimal(s, n / 10);
    }
    let ghost mid = s@;
    s.append(digit_str(n % 10));
    proof {
        if n >= 10 {
            assert(s@ =~= old(s)@ + dec_digits(n as nat));
        } else {
            assert(s@ =~= old(s)@ + dec_digits(n as nat));
        }
    }
}

/// The on-disk location of one artifact: `<data_dir>/<id>/<file_type>`, a
/// single file with no extension, derived solely from the numeric id and
/// the kind's fixed name.
pub fn media_path(data_dir: &str, id: i32, file_type: &str) -> (r: String)
    ensures
        r@ == data_dir@ + seq!['/'] + int_str(id as int) + seq!['/'] + file_type@,
{
    proof {
        reveal_strlit("/");
        reveal_strlit("-");
    }
    let mut s = String::from_str(data_dir);
    s.append("/");
    let n: i64 = id as i64;
    if n < 0 {
        s.append("-");
        push_decimal(&mut s, (-n) as u64);
    } else {
        push_decimal(&mut s, n as u64);
    }
    s.append("/");
    s.append(file_type);
    proof {
        assert(s@ =~= data_dir@ + seq!['/'] + int_str(id as int) + seq!['/'] + file_type@);
    }
    s
}

} // verus!
