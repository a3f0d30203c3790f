//! Choosing and ordering the image files of an input directory, and the
//! decisions taken while reading fixed-size frames from a byte stream.

use vstd::prelude::*;

verus! {

// ---------------------------------------------------------------------------
// Image files of a directory
// ---------------------------------------------------------------------------

/// What the file system reports of one directory entry.
#[derive(Debug, Clone)]
pub struct ListedEntry {
    /// The entry is a regular file (following links).
    pub is_file: bool,
    /// The last path component, `None` when the path has none.
    pub file_name: Option<String>,
    /// The part of the file name after its last dot, `None` without one.
    pub extension: Option<String>,
}

/// `str::to_lowercase` of a string: its Unicode lowercase mapping.
pub uninterp spec fn unicode_lowercase(s: Seq<char>) -> Seq<char>;

/// `str::to_lowercase`: a new string holding the lowercase mapping of `s`,
/// as defined by Unicode. The mapping is named, not written out.
#[verifier::external_body]
fn lowercase(s: &str) -> (r: String)
    ensures
        r@ == unicode_lowercase(s@),
{
    s.to_lowercase()
}

/// An extension, already lower-cased, names a PNG or JPEG file.
pub open spec fn spec_is_image_extension(lower: Seq<char>) -> bool {
    lower == "png"@ || lower == "jpg"@ || lower == "jpeg"@
}

/// A file with this extension is read as an image: its lower-cased
/// extension is `png`, `jpg` or `jpeg`.
pub open spec fn spec_supported_extension(extension: Option<String>) -> bool {
    match extension {
        Some(e) => spec_is_image_extension(unicode_lowercase(e@)),
        None => false,
    }
}

/// The key by which image files are ordered: the lower-cased file name, or
/// the empty name.
pub open spec fn spec_name_key(entry: ListedEntry) -> Seq<char> {
    match entry.file_name {
        Some(n) => unicode_lowercase(n@),
        None => Seq::empty(),
    }
}

/// An entry is used as a frame: a regular file with a supported extension.
pub open spec fn spec_is_image_file(entry: ListedEntry) -> bool {
    entry.is_file && spec_supported_extension(entry.extension)
}

/// `a` sorts strictly before `b`, comparing characters by code point and a
/// proper prefix before the longer string (the order of `String`).
pub open spec fn lex_lt(a: Seq<char>, b: Seq<char>) -> bool
    decreases a.len(),
{
    if b.len() == 0 {
        false
    } else if a.len() == 0 {
        true
    } else if a[0] != b[0] {
        (a[0] as int) < (b[0] as int)
    } else {
        lex_lt(a.drop_first(), b.drop_first())
    }
}

/// Entry `i` comes before entry `j`: by key, and by position among equal
/// keys.
pub open spec fn listed_before(keys: Seq<Seq<char>>, i: int, j: int) -> bool {
    lex_lt(keys[i], keys[j]) || (keys[i] == keys[j] && i < j)
}

/// `order` lists, without repetition, exactly the positions `i < n` for
/// which `chosen[i]` is set, each position before every later one by key.
pub open spec fn is_listing(order: Seq<usize>, keys: Seq<Seq<char>>, chosen: Seq<bool>, n: int) -> bool {
    &&& forall|p: int| 0 <= p < order.len() ==> #[trigger] order[p] < n && chosen[order[p] as int]
    &&& forall|i: int| 0 <= i < n && #[trigger] chosen[i] ==> exists|p: int| 0 <= p < order.len() && #[trigger] order[p] == i
    &&& forall|p: int, q: int|
        0 <= p < q < order.len() ==> listed_before(keys, #[trigger] order[p] as int, #[trigger] order[q] as int)
}

/// Nothing sorts strictly before itself.
pub proof fn lemma_lex_lt_irreflexive(a: Seq<char>)
    ensures
        !lex_lt(a, a),
    decreases a.len(),
{
    if a.len() > 0 {
        lemma_lex_lt_irreflexive(a.drop_first());
    }
}

/// Of two different strings, exactly one sorts before the other.
pub proof fn lemma_lex_lt_total(a: Seq<char>, b: Seq<char>)
    ensures
        a != b ==> (lex_lt(a, b) || lex_lt(b, a)),
        !(lex_lt(a, b) && lex_lt(b, a)),
    decreases a.len(),
{
    if a.len() > 0 && b.len() > 0 && a[0] == b[0] {
        lemma_lex_lt_total(a.drop_first(), b.drop_first());
        if a.drop_first() == b.drop_first() {
            assert(a =~= seq![a[0]] + a.drop_first());
            assert(b =~= seq![b[0]] + b.drop_first());
        }
    } else if a.len() == 0 && b.len() == 0 {
        assert(a =~= b);
    } else if a.len() > 0 && b.len() > 0 {
        assert((a[0] as int) != (b[0] as int));
    }
}

/// Sorting before is transitive.
pub proof fn lemma_lex_lt_transitive(a: Seq<char>, b: Seq<char>, c: Seq<char>)
    requires
        lex_lt(a, b),
        lex_lt(b, c),
    ensures
        lex_lt(a, c),
    decreases a.len(),
{
    if a.len() > 0 && b.len() > 0 && c.len() > 0 && a[0] == b[0] && b[0] == c[0] {
        lemma_lex_lt_transitive(a.drop_first(), b.drop_first(), c.drop_first());
    }
}

/// No position comes before itself, and of two positions at most one comes
/// before the other.
proof fn lemma_listed_before_strict(keys: Seq<Seq<char>>, i: int, j: int)
    ensures
        !listed_before(keys, i, i),
        !(listed_before(keys, i, j) && listed_before(keys, j, i)),
{
    lemma_lex_lt_irreflexive(keys[i]);
    lemma_lex_lt_total(keys[i], keys[j]);
    if keys[i] == keys[j] {
        lemma_lex_lt_irreflexive(keys[j]);
    }
}

/// A listing is unique: two listings of the same chosen positions under the
/// same keys are the same sequence, so the order of the image files is
/// fully determined by their names and their listed order.
pub proof fn lemma_listing_unique(
    a: Seq<usize>,
    b: Seq<usize>,
    keys: Seq<Seq<char>>,
    chosen: Seq<bool>,
    n: int,
)
    requires
        is_listing(a, keys, chosen, n),
        is_listing(b, keys, chosen, n),
    ensures
        a == b,
{
    assert forall|k: int| 0 <= k < a.len() && k < b.len() implies a[k] == b[k] by {
        lemma_listing_prefix_agrees(a, b, keys, chosen, n, k);
    }
    if a.len() != b.len() {
        let (longer, shorter) = if a.len() > b.len() {
            (a, b)
        } else {
            (b, a)
        };
        let m = shorter.len() as int;
        let x = longer[m] as int;
        assert(chosen[x]);
        let r = choose|r: int| 0 <= r < shorter.len() && #[trigger] shorter[r] == x;
        assert(longer[r] == shorter[r]);
        assert(listed_before(keys, longer[r] as int, longer[m] as int));
        lemma_listed_before_strict(keys, x, x);
    }
    assert(a =~= b);
}

/// Two listings agree up to position `k`.
proof fn lemma_listing_prefix_agrees(
    a: Seq<usize>,
    b: Seq<usize>,
    keys: Seq<Seq<char>>,
    chosen: Seq<bool>,
    n: int,
    k: int,
)
    requires
        is_listing(a, keys, chosen, n),
        is_listing(b, keys, chosen, n),
        0 <= k < a.len(),
        k < b.len(),
    ensures
        a[k] == b[k],
    decreases k,
{
    if k > 0 {
        lemma_listing_prefix_agrees(a, b, keys, chosen, n, k - 1);
    }
    assert forall|j: int| 0 <= j < k implies a[j] == b[j] by {
        lemma_listing_prefix_agrees(a, b, keys, chosen, n, j);
    }
    let x = a[k] as int;
    let y = b[k] as int;
    if x != y {
        assert(chosen[x] && chosen[y]);
        let r = choose|r: int| 0 <= r < b.len() && #[trigger] b[r] == x;
        let s = choose|s: int| 0 <= s < a.len() && #[trigger] a[s] == y;
        if r < k {
            assert(a[r] == b[r]);
            assert(listed_before(keys, a[r] as int, a[k] as int));
            lemma_listed_before_strict(keys, x, x);
        }
        if s < k {
            assert(a[s] == b[s]);
            assert(listed_before(keys, b[s] as int, b[k] as int));
            lemma_listed_before_strict(keys, y, y);
        }
        assert(r > k && s > k);
        assert(listed_before(keys, b[k] as int, b[r] as int));
        assert(listed_before(keys, a[k] as int, a[s] as int));
        lemma_listed_before_strict(keys, x, y);
    }
}

/// Equal first characters leave the comparison to the rest.
proof fn lemma_lex_lt_skip(a: Seq<char>, b: Seq<char>, i: int)
    requires
        0 <= i < a.len(),
        i < b.len(),
        a[i] == b[i],
    ensures
        lex_lt(a.skip(i), b.skip(i)) == lex_lt(a.skip(i + 1), b.skip(i + 1)),
{
    assert(a.skip(i).drop_first() =~= a.skip(i + 1));
    assert(b.skip(i).drop_first() =~= b.skip(i + 1));
}

/// Whether `a` sorts strictly before `b`.
fn str_less(a: &str, b: &str) -> (r: bool)
    ensures
        r == lex_lt(a@, b@),
{
    let n = a.unicode_len();
    let m = b.unicode_len();
    let mut i: usize = 0;
    assert(a@.skip(0) =~= a@);
    assert(b@.skip(0) =~= b@);
    while i < n && i < m
        invariant
            n == a@.len(),
            m == b@.len(),
            0 <= i <= n,
            i <= m,
            lex_lt(a@, b@) == lex_lt(a@.skip(i as int), b@.skip(i as int)),
        decreases n - i,
    {
        let x = a.get_char(i);
        let y = b.get_char(i);
        if x != y {
            assert(a@.skip(i as int)[0] == x && b@.skip(i as int)[0] == y);
            return (x as u32) < (y as u32);
        }
        proof {
            lemma_lex_lt_skip(a@, b@, i as int);
        }
        i += 1;
    }
    i == n && i < m
}

/// Whether two strings hold the same characters.
fn str_same(a: &str, b: &str) -> (r: bool)
    ensures
        r == (a@ == b@),
{
    let n = a.unicode_len();
    if n != b.unicode_len() {
        return false;
    }
    let mut i: usize = 0;
    while i < n
        invariant
            n == a@.len(),
            n == b@.len(),
            0 <= i <= n,
            forall|k: int| 0 <= k < i ==> a@[k] == b@[k],
        decreases n - i,
    {
        if a.get_char(i) != b.get_char(i) {
            return false;
        }
        i += 1;
    }
    assert(a@ =~= b@);
    true
}

/// Whether a lower-cased extension names a PNG or JPEG file.
pub fn is_image_extension(lower: &str) -> (r: bool)
    ensures
        r == spec_is_image_extension(lower@),
{
    str_same(lower, "png") || str_same(lower, "jpg") || str_same(lower, "jpeg")
}

/// Whether a file with this extension is read as an image, its case
/// ignored.
pub fn is_supported_image_file(extension: &Option<String>) -> (r: bool)
    ensures
        r == spec_supported_extension(*extension),
{
    match extension {
        Some(e) => {
            let lower = lowercase(e.as_str());
            is_image_extension(lower.as_str())
        },
        None => false,
    }
}

/// The positions of `keys`' entries listed by key, equal keys in their
/// given order, keeping those for which `chosen` is set.
pub fn order_by_key(keys: &Vec<String>, chosen: &Vec<bool>) -> (order: Vec<usize>)
    requires
        keys@.len() == chosen@.len(),
    ensures
        is_listing(
            order@,
            keys@.map_values(|k: String| k@),
            chosen@,
            keys@.len() as int,
        ),
{
    let ghost ks = keys@.map_values(|k: String| k@);
    let mut order: Vec<usize> = Vec::new();
    let mut i: usize = 0;
    while i < keys.len()
        invariant
            ks == keys@.map_values(|k: String| k@),
            keys@.len() == chosen@.len(),
            0 <= i <= keys@.len(),
            is_listing(order@, ks, chosen@, i as int),
        decreases keys@.len() - i,
    {
        if chosen[i] {
            // Find the first listed entry that sorts after the new one.
            let mut p: usize = 0;
            while p < order.len() && !str_less(keys[i].as_str(), keys[order[p]].as_str())
                invariant
                    ks == keys@.map_values(|k: String| k@),
                    keys@.len() == chosen@.len(),
                    0 <= i < keys@.len(),
                    0 <= p <= order@.len(),
                    is_listing(order@, ks, chosen@, i as int),
                    forall|q: int| 0 <= q < p ==> listed_before(ks, #[trigger] order@[q] as int, i as int),
                decreases order@.len() - p,
            {
                proof {
                    let e = order@[p as int] as int;
                    lemma_lex_lt_total(ks[i as int], ks[e]);
                }
                p += 1;
            }
            proof {
                assert forall|q: int| p <= q < order@.len() implies listed_before(
                    ks,
                    i as int,
                    #[trigger] order@[q] as int,
                ) by {
                    let f = order@[p as int] as int;
                    let e = order@[q] as int;
                    assert(lex_lt(ks[i as int], ks[f]));
                    if q > p {
                        assert(listed_before(ks, f, e));
                        if lex_lt(ks[f], ks[e]) {
                            lemma_lex_lt_transitive(ks[i as int], ks[f], ks[e]);
                        }
                    }
                }
            }
            let ghost before = order@;
            order.insert(p, i);
            proof {
                assert forall|a: int, b: int| 0 <= a < b < order@.len() implies listed_before(
                    ks,
                    #[trigger] order@[a] as int,
                    #[trigger] order@[b] as int,
                ) by {
                    if b < p {
                        assert(order@[a] == before[a] && order@[b] == before[b]);
                    } else if b == p {
                        assert(order@[a] == before[a]);
                    } else if a < p {
                        assert(order@[a] == before[a] && order@[b] == before[b - 1]);
                    } else if a == p {
                        assert(order@[b] == before[b - 1]);
                    } else {
                        assert(order@[a] == before[a - 1] && order@[b] == before[b - 1]);
                    }
                }
                assert forall|j: int| 0 <= j < i + 1 && chosen@[j] implies exists|r: int|
                    0 <= r < order@.len() && #[trigger] order@[r] == j by {
                    if j == i {
                        assert(order@[p as int] == j);
                    } else {
                        let r0 = choose|r: int| 0 <= r < before.len() && #[trigger] before[r] == j;
                        if r0 < p {
                            assert(order@[r0] == j);
                        } else {
                            assert(order@[r0 + 1] == j);
                        }
                    }
                }
                assert forall|r: int| 0 <= r < order@.len() implies #[trigger] order@[r] < i + 1
                    && chosen@[order@[r] as int] by {
                    if r < p {
                        assert(order@[r] == before[r]);
                    } else if r > p {
                        assert(order@[r] == before[r - 1]);
                    }
                }
            }
        } else {
            proof {
                assert forall|j: int| 0 <= j < i + 1 && chosen@[j] implies exists|r: int|
                    0 <= r < order@.len() && #[trigger] order@[r] == j by {
                    assert(j != i);
                }
            }
        }
        i += 1;
    }
    order
}

/// The image files among directory entries, as positions in frame order:
/// regular files with a PNG or JPEG extension, ordered by lower-cased file
/// name, entries with equal names in their listed order.
pub fn order_image_files(entries: &Vec<ListedEntry>) -> (order: Vec<usize>)
    ensures
        is_listing(
            order@,
            entries@.map_values(|e: ListedEntry| spec_name_key(e)),
            entries@.map_values(|e: ListedEntry| spec_is_image_file(e)),
            entries@.len() as int,
        ),
{
    let mut keys: Vec<String> = Vec::new();
    let mut chosen: Vec<bool> = Vec::new();
    let mut i: usize = 0;
    while i < entries.len()
        invariant
            0 <= i <= entries@.len(),
            keys@.len() == i,
            chosen@.len() == i,
            forall|j: int| 0 <= j < i ==> #[trigger] keys@[j]@ == spec_name_key(entries@[j]),
            forall|j: int| 0 <= j < i ==> #[trigger] chosen@[j] == spec_is_image_file(entries@[j]),
        decreases entries@.len() - i,
    {
        let entry = &entries[i];
        let key = match &entry.file_name {
            Some(name) => lowercase(name.as_str()),
            None => String::new(),
        };
        let is_image = entry.is_file && is_supported_image_file(&entry.extension);
        keys.push(key);
        chosen.push(is_image);
        i += 1;
    }
    let order = order_by_key(&keys, &chosen);
    proof {
        let ks = keys@.map_values(|k: String| k@);
        let es = entries@.map_values(|e: ListedEntry| spec_name_key(e));
        assert(ks =~= es);
        assert(chosen@ =~= entries@.map_values(|e: ListedEntry| spec_is_image_file(e)));
    }
    order
}

// ---------------------------------------------------------------------------
// Reading frames from a stream
// ---------------------------------------------------------------------------

/// Where the reading of one frame of `expected` bytes stands.
#[derive(Debug, Clone, Copy, PartialEq, Eq, Structural)]
pub enum FrameRead {
    /// Read more bytes into the frame buffer from offset `filled` on.
    NeedMore { filled: usize },
    /// The buffer holds a whole frame.
    Complete,
    /// The stream ended before the frame began: there are no more frames.
    EndOfStream,
    /// The stream ended after `filled` of `expected` bytes of a frame.
    Truncated { filled: usize, expected: usize },
}

/// The state before anything of a frame of `frame_len` bytes was read.
pub fn frame_read_start(frame_len: usize) -> (s: FrameRead)
    ensures
        frame_len == 0 ==> s == FrameRead::Complete,
        frame_len > 0 ==> s == (FrameRead::NeedMore { filled: 0 }),
{
    if frame_len == 0 {
        FrameRead::Complete
    } else {
        FrameRead::NeedMore { filled: 0 }
    }
}

/// The state after a read handed `read` more bytes while `filled` of the
/// frame's `frame_len` bytes were held: a read of nothing ends the stream,
/// cleanly only at a frame boundary.
pub fn frame_read_advance(filled: usize, frame_len: usize, read: usize) -> (s: FrameRead)
    requires
        filled < frame_len,
    ensures
        read == 0 && filled == 0 ==> s == FrameRead::EndOfStream,
        read == 0 && filled > 0 ==> s == (FrameRead::Truncated { filled, expected: frame_len }),
        read > 0 && filled + read >= frame_len ==> s == FrameRead::Complete,
        read > 0 && filled + read < frame_len ==> s == (FrameRead::NeedMore {
            filled: (filled + read) as usize,
        }),
{
    if read == 0 {
        if filled == 0 {
            FrameRead::EndOfStream
        } else {
            FrameRead::Truncated { filled, expected: frame_len }
        }
    } else if read >= frame_len - filled {
        FrameRead::Complete
    } else {
        FrameRead::NeedMore { filled: filled + read }
    }
}

} // verus!
