//! The static bootstrap list: one peer per line, `<address>:<identity>`.
//!
//! A line names a peer by a multiaddr and a base-58 peer id with a colon
//! between them. A peer id holds no colon, so the line's last colon is the
//! one between the two; the address before it may hold colons of its own. A
//! line that names no peer is skipped; it never stops the list from being
//! read.

use crate::identity::{decoded_peer_id, encoded_multiaddr, PeerAddress, PeerIdentity, PeerInfo};
use vstd::prelude::*;
use vstd::string::*;

verus! {

/// What a bootstrap line says: the peer's address and identity, as bytes.
pub struct BootEntry {
    pub address: Seq<u8>,
    pub identity: Seq<u8>,
}

/// A peer of the bootstrap list.
#[derive(Debug, PartialEq, Eq)]
pub struct Bootnode {
    multiaddr: PeerAddress,
    peer_id: PeerIdentity,
}

impl View for Bootnode {
    type V = BootEntry;

    closed spec fn view(&self) -> BootEntry {
        BootEntry { address: self.multiaddr@, identity: self.peer_id@ }
    }
}

impl Bootnode {
    /// The bootstrap peer named by a multiaddr and a base-58 peer id, both of
    /// which libp2p accepts.
    pub fn new(multiaddr: &str, peer_id: &str) -> (node: Self)
        requires
            PeerInfo::accepts(multiaddr@, peer_id@),
        ensures
            Some(node@.address) == encoded_multiaddr(multiaddr@),
            Some(node@.identity) == decoded_peer_id(peer_id@),
    {
        let info = PeerInfo::new(multiaddr, peer_id);
        Bootnode { multiaddr: info.multiaddr, peer_id: info.peer_id }
    }

    /// The bootstrap peer named by the two texts, or `None` where libp2p
    /// rejects one of them.
    pub fn parse(multiaddr: &str, peer_id: &str) -> (r: Option<Self>)
        ensures
            r.is_some() == PeerInfo::accepts(multiaddr@, peer_id@),
            r matches Some(node) ==> {
                &&& Some(node@.address) == encoded_multiaddr(multiaddr@)
                &&& Some(node@.identity) == decoded_peer_id(peer_id@)
            },
    {
        if PeerAddress::parse(multiaddr).is_some() && PeerIdentity::parse(peer_id).is_some() {
            Some(Bootnode::new(multiaddr, peer_id))
        } else {
            None
        }
    }

    /// Where the peer listens.
    pub fn multiaddr(&self) -> (addr: &PeerAddress)
        ensures
            addr@ == self@.address,
    {
        &self.multiaddr
    }

    /// Who the peer is.
    pub fn peer_id(&self) -> (id: &PeerIdentity)
        ensures
            id@ == self@.identity,
    {
        &self.peer_id
    }
}

/// How many characters of `s` stand from position `from` on before the next
/// `sep`, or before the end of `s` where no `sep` follows.
pub open spec fn run_len(s: Seq<char>, from: int, sep: char) -> nat
    decreases s.len() - from,
{
    if from >= s.len() || s[from] == sep {
        0
    } else {
        1 + run_len(s, from + 1, sep)
    }
}

/// The first position at or after `from` at which `s` holds `sep`, or the
/// length of `s` where it holds none there.
pub open spec fn field_end(s: Seq<char>, from: int, sep: char) -> int {
    from + run_len(s, from, sep)
}

/// The position of the last `sep` in `s`, if `s` holds one.
pub open spec fn last_index_of(s: Seq<char>, sep: char) -> Option<int>
    decreases s.len(),
{
    if s.len() == 0 {
        None
    } else if s.last() == sep {
        Some(s.len() - 1)
    } else {
        last_index_of(s.drop_last(), sep)
    }
}

/// The position of the last colon of `line`, if it holds one.
pub open spec fn last_colon(line: Seq<char>) -> Option<int> {
    last_index_of(line, ':')
}

/// The entry that a line holds: its text before the last colon as a
/// multiaddr, its text behind the last colon as a peer id. `None` where the
/// line has no colon, where nothing stands before the last colon, or where
/// libp2p rejects either text.
pub open spec fn line_entry(line: Seq<char>) -> Option<BootEntry> {
    match last_colon(line) {
        None => None,
        Some(k) => {
            let address = encoded_multiaddr(line.subrange(0, k));
            let identity = decoded_peer_id(line.subrange(k + 1, line.len() as int));
            if k > 0 && address.is_some() && identity.is_some() {
                Some(BootEntry { address: address.unwrap(), identity: identity.unwrap() })
            } else {
                None
            }
        },
    }
}

/// The lines of `content` from position `from` on: the texts between its line
/// feeds. Behind a last line feed, and in an empty text, there is no line.
pub open spec fn lines_from(content: Seq<char>, from: int) -> Seq<Seq<char>>
    decreases content.len() - from,
{
    if from < 0 || from >= content.len() {
        Seq::empty()
    } else {
        let end = field_end(content, from, '\n');
        if end < content.len() {
            seq![content.subrange(from, end)] + lines_from(content, end + 1)
        } else {
            seq![content.subrange(from, end)]
        }
    }
}

/// The text whose lines are `lines`: they stand one behind the other, with a
/// line feed between each two.
pub open spec fn joined(lines: Seq<Seq<char>>) -> Seq<char>
    decreases lines.len(),
{
    if lines.len() == 0 {
        Seq::empty()
    } else if lines.len() == 1 {
        lines[0]
    } else {
        lines[0] + seq!['\n'] + joined(lines.drop_first())
    }
}

/// The entries of the lines that hold one, in the lines' order.
pub open spec fn accepted(lines: Seq<Seq<char>>) -> Seq<BootEntry>
    decreases lines.len(),
{
    if lines.len() == 0 {
        Seq::empty()
    } else {
        match line_entry(lines.last()) {
            Some(entry) => accepted(lines.drop_last()).push(entry),
            None => accepted(lines.drop_last()),
        }
    }
}

/// The numbers, counted from zero, of the lines that hold no entry.
pub open spec fn rejected(lines: Seq<Seq<char>>) -> Seq<usize>
    decreases lines.len(),
{
    if lines.len() == 0 {
        Seq::empty()
    } else if line_entry(lines.last()).is_some() {
        rejected(lines.drop_last())
    } else {
        rejected(lines.drop_last()).push((lines.len() - 1) as usize)
    }
}

/// What reading a bootstrap list gives: the peers it names, and the numbers
/// of the lines that were skipped.
#[derive(Debug, PartialEq, Eq)]
pub struct BootstrapList {
    pub nodes: Vec<Bootnode>,
    pub skipped: Vec<usize>,
}

impl BootstrapList {
    /// The entries of the list's peers.
    pub open spec fn entries(&self) -> Seq<BootEntry> {
        self.nodes@.map_values(|node: Bootnode| node@)
    }
}

/// A field ends within the text, at its first separator or at the text's
/// end.
proof fn lemma_field_end_bounds(s: Seq<char>, from: int, sep: char)
    requires
        0 <= from <= s.len(),
    ensures
        from <= field_end(s, from, sep) <= s.len(),
        forall|j: int| from <= j < field_end(s, from, sep) ==> s[j] != sep,
        field_end(s, from, sep) < s.len() ==> s[field_end(s, from, sep)] == sep,
    decreases s.len() - from,
{
    if from < s.len() && s[from] != sep {
        lemma_field_end_bounds(s, from + 1, sep);
    }
}

/// The first position at or after `from` at which `text` holds `sep`, or the
/// length of `text` where it holds none there; `from` itself where `from`
/// lies behind the text.
pub fn find_end(text: &str, from: usize, sep: char) -> (end: usize)
    ensures
        end == field_end(text@, from as int, sep),
        from <= text@.len() ==> from <= end <= text@.len(),
{
    let len = text.unicode_len();
    if from > len {
        return from;
    }
    let mut i: usize = from;
    proof {
        lemma_field_end_bounds(text@, from as int, sep);
    }
    while i < len
        invariant
            len == text@.len(),
            from <= i <= len,
            field_end(text@, from as int, sep) == field_end(text@, i as int, sep),
        decreases len - i,
    {
        if text.get_char(i) == sep {
            return i;
        }
        i += 1;
    }
    i
}

/// The last separator of a text is the greatest position that holds one.
pub proof fn lemma_last_index_of(s: Seq<char>, sep: char)
    ensures
        match last_index_of(s, sep) {
            Some(k) => 0 <= k < s.len() && s[k] == sep && forall|j: int|
                k < j < s.len() ==> s[j] != sep,
            None => forall|j: int| 0 <= j < s.len() ==> s[j] != sep,
        },
    decreases s.len(),
{
    if s.len() > 0 && s.last() != sep {
        let rest = s.drop_last();
        lemma_last_index_of(rest, sep);
        match last_index_of(rest, sep) {
            Some(k) => {
                assert(s[k] == rest[k]);
                assert forall|j: int| k < j < s.len() implies s[j] != sep by {
                    if j < rest.len() {
                        assert(s[j] == rest[j]);
                    }
                }
            },
            None => {
                assert forall|j: int| 0 <= j < s.len() implies s[j] != sep by {
                    if j < rest.len() {
                        assert(s[j] == rest[j]);
                    }
                }
            },
        }
    }
}

/// The position of the last `sep` in `text`, if `text` holds one.
pub fn find_last(text: &str, sep: char) -> (r: Option<usize>)
    ensures
        match r {
            Some(k) => last_index_of(text@, sep) == Some(k as int) && k < text@.len(),
            None => last_index_of(text@, sep).is_none(),
        },
{
    let len = text.unicode_len();
    let mut found: Option<usize> = None;
    let mut i: usize = 0;
    proof {
        assert(text@.take(0).len() == 0);
    }
    while i < len
        invariant
            len == text@.len(),
            i <= len,
            match found {
                Some(k) => last_index_of(text@.take(i as int), sep) == Some(k as int) && k < i,
                None => last_index_of(text@.take(i as int), sep).is_none(),
            },
        decreases len - i,
    {
        proof {
            assert(text@.take(i + 1).drop_last() =~= text@.take(i as int));
            assert(text@.take(i + 1).last() == text@[i as int]);
        }
        if text.get_char(i) == sep {
            found = Some(i);
        }
        i += 1;
    }
    proof {
        assert(text@.take(len as int) =~= text@);
    }
    found
}

/// Reads one line of a bootstrap list.
pub fn parse_line(line: &str) -> (r: Option<Bootnode>)
    ensures
        r.is_some() == line_entry(line@).is_some(),
        r matches Some(node) ==> line_entry(line@) == Some(node@),
{
    match find_last(line, ':') {
        None => None,
        Some(colon) => {
            if colon == 0 {
                return None;
            }
            let len = line.unicode_len();
            let address = line.substring_char(0, colon);
            let identity = line.substring_char(colon + 1, len);
            Bootnode::parse(address, identity)
        },
    }
}

/// Reads a bootstrap list: every line that names a peer gives that peer, in
/// the lines' order, and every other line is skipped and its number noted.
pub fn parse_bootnodes(content: &str) -> (list: BootstrapList)
    ensures
        list.entries() == accepted(lines_from(content@, 0)),
        list.skipped@ == rejected(lines_from(content@, 0)),
{
    let len = content.unicode_len();
    let mut nodes: Vec<Bootnode> = Vec::new();
    let mut skipped: Vec<usize> = Vec::new();
    let mut pos: usize = 0;
    let mut line_no: usize = 0;
    let ghost mut done: Seq<Seq<char>> = Seq::empty();
    proof {
        assert(done + lines_from(content@, 0) =~= lines_from(content@, 0));
        assert(nodes@.map_values(|node: Bootnode| node@) =~= accepted(done));
    }
    while pos < len
        invariant
            len == content@.len(),
            pos <= len,
            line_no == done.len(),
            line_no <= pos,
            lines_from(content@, 0) == done + lines_from(content@, pos as int),
            nodes@.map_values(|node: Bootnode| node@) == accepted(done),
            skipped@ == rejected(done),
        decreases len - pos,
    {
        let end = find_end(content, pos, '\n');
        let line = content.substring_char(pos, end);
        let ghost before = done;
        let ghost views = nodes@.map_values(|node: Bootnode| node@);
        proof {
            done = done.push(line@);
            assert(done.drop_last() =~= before);
            assert(done.last() == line@);
            if end < len {
                assert(before + (seq![line@] + lines_from(content@, end + 1)) =~= done
                    + lines_from(content@, end + 1));
            } else {
                assert(before + seq![line@] =~= done + lines_from(content@, len as int));
            }
        }
        match parse_line(line) {
            Some(node) => {
                nodes.push(node);
                proof {
                    assert(nodes@.map_values(|node: Bootnode| node@) =~= views.push(node@));
                }
            },
            None => {
                skipped.push(line_no);
            },
        }
        line_no += 1;
        if end < len {
            pos = end + 1;
        } else {
            pos = len;
        }
    }
    proof {
        assert(done + lines_from(content@, len as int) =~= done);
    }
    BootstrapList { nodes, skipped }
}

/// A run of characters without a separator ends at the text's end.
proof fn lemma_field_end_is(s: Seq<char>, from: int, end: int, sep: char)
    requires
        0 <= from <= end <= s.len(),
        forall|j: int| from <= j < end ==> s[j] != sep,
        end < s.len() ==> s[end] == sep,
    ensures
        field_end(s, from, sep) == end,
    decreases end - from,
{
    if from < end {
        lemma_field_end_is(s, from + 1, end, sep);
    }
}

/// The lines of a text from a position on are the lines of what stands from
/// that position on.
proof fn lemma_lines_shift(s: Seq<char>, off: int, t: Seq<char>, p: int)
    requires
        0 <= off,
        0 <= p <= t.len(),
        s.len() == off + t.len(),
        forall|j: int| 0 <= j < t.len() ==> s[off + j] == t[j],
    ensures
        lines_from(s, off + p) == lines_from(t, p),
    decreases t.len() - p,
{
    if p < t.len() {
        lemma_field_end_bounds(t, p, '\n');
        let end = field_end(t, p, '\n');
        assert forall|j: int| off + p <= j < off + end implies s[j] != '\n' by {
            assert(s[off + (j - off)] == t[j - off]);
        }
        if end < t.len() {
            assert(s[off + end] == t[end]);
        }
        lemma_field_end_is(s, off + p, off + end, '\n');
        assert(s.subrange(off + p, off + end) =~= t.subrange(p, end));
        if end < t.len() {
            lemma_lines_shift(s, off, t, end + 1);
        }
    }
}

/// A text made of lines has those lines: where no line holds a line feed and
/// the last line is not empty, reading the joined lines gives them back.
pub proof fn law_lines_of_joined(lines: Seq<Seq<char>>)
    requires
        forall|i: int, j: int|
            0 <= i < lines.len() && 0 <= j < lines[i].len() ==> #[trigger] lines[i][j] != '\n',
        lines.len() > 0 ==> lines.last().len() > 0,
    ensures
        lines_from(joined(lines), 0) == lines,
    decreases lines.len(),
{
    if lines.len() == 0 {
        assert(lines_from(joined(lines), 0) =~= lines);
    } else if lines.len() == 1 {
        let s = lines[0];
        lemma_field_end_is(s, 0, s.len() as int, '\n');
        assert(s.subrange(0, s.len() as int) =~= s);
        assert(lines_from(s, 0) =~= lines);
    } else {
        let first = lines[0];
        let rest = lines.drop_first();
        let t = joined(rest);
        let s = first + seq!['\n'] + t;
        assert(joined(lines) == s);
        assert forall|i: int, j: int| 0 <= i < rest.len() && 0 <= j < rest[i].len() implies
            #[trigger] rest[i][j] != '\n' by {
            assert(rest[i] == lines[i + 1]);
        }
        assert(rest.last() == lines.last());
        law_lines_of_joined(rest);
        let k = first.len() as int;
        assert(s[k] == '\n');
        assert forall|j: int| 0 <= j < k implies s[j] != '\n' by {
            assert(s[j] == first[j]);
        }
        lemma_field_end_is(s, 0, k, '\n');
        assert(s.subrange(0, k) =~= first);
        lemma_lines_shift(s, k + 1, t, 0);
        assert(lines_from(s, 0) == seq![first] + lines_from(t, 0));
        assert(seq![first] + rest =~= lines);
    }
}

/// Every line either gives a peer or is noted as skipped: the peers and the
/// skipped lines together are as many as the lines.
pub proof fn law_every_line_counts(lines: Seq<Seq<char>>)
    ensures
        accepted(lines).len() + rejected(lines).len() == lines.len(),
    decreases lines.len(),
{
    if lines.len() > 0 {
        law_every_line_counts(lines.drop_last());
    }
}

/// A list of three lines of which the first and the third name a peer and
/// the second does not gives those two peers, in that order, and notes the
/// second line, and no other, as skipped.
pub proof fn law_line_between_entries_is_skipped(
    first: Seq<char>,
    second: Seq<char>,
    third: Seq<char>,
)
    requires
        !first.contains('\n'),
        !second.contains('\n'),
        !third.contains('\n'),
        line_entry(first).is_some(),
        line_entry(second).is_none(),
        line_entry(third).is_some(),
    ensures
        accepted(lines_from(joined(seq![first, second, third]), 0)) == seq![
            line_entry(first).unwrap(),
            line_entry(third).unwrap(),
        ],
        rejected(lines_from(joined(seq![first, second, third]), 0)) == seq![1usize],
{
    let lines = seq![first, second, third];
    assert(third.len() > 0) by {
        if third.len() == 0 {
            assert(last_colon(third).is_none());
        }
    }
    assert forall|i: int, j: int| 0 <= i < lines.len() && 0 <= j < lines[i].len() implies
        #[trigger] lines[i][j] != '\n' by {
        assert(lines[i].contains(lines[i][j]));
    }
    law_lines_of_joined(lines);
    let two = lines.drop_last();
    let one = two.drop_last();
    assert(two =~= seq![first, second]);
    assert(one =~= seq![first]);
    assert(one.drop_last() =~= Seq::<Seq<char>>::empty());
    assert(one.last() == first);
    assert(two.last() == second);
    assert(lines.last() == third);
    assert(accepted(one.drop_last()) =~= Seq::<BootEntry>::empty());
    assert(rejected(one.drop_last()) =~= Seq::<usize>::empty());
    assert(accepted(one) =~= seq![line_entry(first).unwrap()]);
    assert(rejected(one) =~= Seq::<usize>::empty());
    assert(accepted(two) == accepted(one));
    assert(rejected(two) =~= seq![1usize]);
    assert(accepted(lines) =~= seq![line_entry(first).unwrap(), line_entry(third).unwrap()]);
    assert(rejected(lines) =~= seq![1usize]);
}

} // verus!
