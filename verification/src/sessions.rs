//! The session that tmux shows, read from a listing of its clients.
use crate::text;
use vstd::prelude::*;

verus! {

/// What a line of the listing says: when the tmux client was last active, and the session
/// it shows.
pub struct Entry {
    pub activity: int,
    pub session: Seq<char>,
}

/// Reads a line of the listing. A line that does not start with a number and a further
/// word says nothing.
pub open spec fn entry(line: Seq<char>) -> Option<Entry> {
    let session = text::first_word(text::after_first_word(line));
    match text::number(text::first_word(line)) {
        Some(activity) if session.len() > 0 => Some(Entry { activity, session }),
        _ => None,
    }
}

/// Whether line `i` tells of the latest activity; among several such lines the last counts.
pub open spec fn is_latest(lines: Seq<Seq<char>>, i: int) -> bool {
    &&& 0 <= i < lines.len()
    &&& entry(lines[i]) is Some
    &&& forall|j: int|
        0 <= j < lines.len() && entry(#[trigger] lines[j]) is Some ==> entry(lines[j])->0.activity
            <= entry(lines[i])->0.activity && (j > i ==> entry(lines[j])->0.activity < entry(lines[i])->0.activity)
}

/// The arguments that make tmux list its clients in the form that
/// [`query_active_session`] reads.
pub fn listing_args() -> (args: Vec<&'static str>)
    ensures
        text::slices(args@) == seq!["list-clients"@, "-F"@, "#{client_activity} #{session_id}"@],
{
    let mut args: Vec<&'static str> = Vec::new();
    args.push("list-clients");
    args.push("-F");
    args.push("#{client_activity} #{session_id}");
    assert(text::slices(args@) =~= seq![
        "list-clients"@,
        "-F"@,
        "#{client_activity} #{session_id}"@,
    ]);
    args
}

/// The activity a line tells of, and where in the listing its session begins and ends.
#[derive(Clone, Copy)]
struct Found {
    activity: u64,
    from: usize,
    to: usize,
}

impl Found {
    spec fn matches_entry(self, s: Seq<char>, line: Seq<char>) -> bool {
        &&& self.from <= self.to <= s.len()
        &&& entry(line) == Some(
            Entry {
                activity: self.activity as int,
                session: s.subrange(self.from as int, self.to as int),
            },
        )
    }
}

/// Reads one line of the listing, the characters from `from` to `to`.
fn read_entry(s: &Vec<char>, from: usize, to: usize) -> (r: Option<Found>)
    requires
        from <= to <= s@.len(),
    ensures
        match r {
            Some(found) => found.matches_entry(s@, s@.subrange(from as int, to as int)),
            None => entry(s@.subrange(from as int, to as int)) is None,
        },
{
    let ghost line = s@.subrange(from as int, to as int);
    let a: usize = text::skip_blanks(s, from, to);
    let b: usize = text::word_end(s, a, to);
    let activity: u64 = match text::parse_number(s, a, b) {
        Some(n) => n,
        None => {
            return None;
        },
    };
    assert(text::after_first_word(line) =~= s@.subrange(b as int, to as int));
    let c: usize = text::skip_blanks(s, b, to);
    let d: usize = text::word_end(s, c, to);
    if c == d {
        None
    } else {
        Some(Found { activity, from: c, to: d })
    }
}

/// Whether `best` holds what the line with the latest activity says.
spec fn is_best(s: Seq<char>, best: Option<Found>, lines: Seq<Seq<char>>) -> bool {
    match best {
        Some(found) => exists|i: int|
            is_latest(lines, i) && found.matches_entry(s, #[trigger] lines[i]),
        None => forall|i: int| 0 <= i < lines.len() ==> entry(#[trigger] lines[i]) is None,
    }
}

/// Takes one more line into account, the characters from `from` to `to`.
fn consider(
    s: &Vec<char>,
    best: Option<Found>,
    from: usize,
    to: usize,
    Ghost(lines): Ghost<Seq<Seq<char>>>,
) -> (r: Option<Found>)
    requires
        from <= to <= s@.len(),
        is_best(s@, best, lines),
    ensures
        is_best(s@, r, lines.push(s@.subrange(from as int, to as int))),
{
    let ghost longer = lines.push(s@.subrange(from as int, to as int));
    let ghost last = lines.len() as int;
    let line: Option<Found> = read_entry(s, from, to);
    let ghost i = choose|i: int| is_latest(lines, i) && best->0.matches_entry(
        s@,
        #[trigger] lines[i],
    );
    assert(forall|j: int| 0 <= j < lines.len() ==> longer[j] == lines[j]);
    assert(longer[last] == s@.subrange(from as int, to as int));
    match (best, line) {
        (Some(b), Some(l)) => {
            if l.activity >= b.activity {
                assert(is_latest(longer, last));
                line
            } else {
                assert(is_latest(longer, i));
                best
            }
        },
        (None, Some(_)) => {
            assert(is_latest(longer, last));
            line
        },
        (Some(_), None) => {
            assert(is_latest(longer, i));
            best
        },
        (None, None) => None,
    }
}

/// Finds the session tmux shows in a listing of its clients: the one of the client that
/// was active last.
pub fn query_active_session(listing: &str) -> (r: Option<String>)
    ensures
        ({
            let lines = text::pieces(listing@, '\n');
            match r {
                Some(session) => exists|i: int|
                    is_latest(lines, i) && entry(#[trigger] lines[i])->0.session == session@,
                None => forall|i: int| 0 <= i < lines.len() ==> entry(#[trigger] lines[i]) is None,
            }
        }),
{
    let s: Vec<char> = text::characters(listing);
    let n: usize = s.len();
    let mut best: Option<Found> = None;
    let mut start: usize = 0;
    let mut i: usize = 0;
    let ghost mut done: Seq<Seq<char>> = Seq::empty();
    proof {
        assert(s@.take(0) =~= Seq::empty());
        assert(done.push(s@.subrange(0, 0)) =~= text::pieces(s@.take(0), '\n'));
    }
    while i < n
        invariant
            start <= i <= n,
            n == s@.len(),
            text::pieces(s@.take(i as int), '\n') == done.push(s@.subrange(start as int, i as int)),
            is_best(s@, best, done),
        decreases n - i,
    {
        let ghost piece = s@.subrange(start as int, i as int);
        assert(s@.take(i + 1).drop_last() =~= s@.take(i as int));
        assert(s@.take(i + 1).last() == s@[i as int]);
        if s[i] == '\n' {
            best = consider(&s, best, start, i, Ghost(done));
            proof {
                done = done.push(piece);
            }
            start = i + 1;
            assert(s@.subrange(start as int, start as int) =~= Seq::empty());
        } else {
            assert(done.push(piece).drop_last() =~= done);
            assert(piece.push(s@[i as int]) =~= s@.subrange(start as int, i + 1));
        }
        i += 1;
    }
    best = consider(&s, best, start, n, Ghost(done));
    assert(s@.take(n as int) =~= listing@);
    match best {
        Some(found) => Some(listing.substring_char(found.from, found.to).to_owned()),
        None => None,
    }
}

/// At most one line tells of the latest activity, so that the session is determined.
pub proof fn latest_is_unique(lines: Seq<Seq<char>>, i: int, j: int)
    requires
        is_latest(lines, i),
        is_latest(lines, j),
    ensures
        i == j,
{
    assert(entry(lines[i]) is Some && entry(lines[j]) is Some);
}

/// The words of a line are read one after the other, whatever white space is around them:
/// the first is the activity, if it denotes a number, and the second the session.
pub proof fn line_is_read_word_by_word(
    before: Seq<char>,
    first: Seq<char>,
    between: Seq<char>,
    second: Seq<char>,
    rest: Seq<char>,
)
    requires
        forall|k: int| 0 <= k < before.len() ==> text::blank(#[trigger] before[k]),
        first.len() > 0,
        forall|k: int| 0 <= k < first.len() ==> !text::blank(#[trigger] first[k]),
        between.len() > 0,
        forall|k: int| 0 <= k < between.len() ==> text::blank(#[trigger] between[k]),
        second.len() > 0,
        forall|k: int| 0 <= k < second.len() ==> !text::blank(#[trigger] second[k]),
        rest.len() > 0 ==> text::blank(rest[0]),
    ensures
        text::number(first) is None ==> entry(before + first + between + second + rest) is None,
        text::number(first) is Some ==> entry(before + first + between + second + rest) == Some(
            Entry { activity: text::number(first)->0, session: second },
        ),
{
    let tail = between + second + rest;
    assert(before + first + between + second + rest =~= before + first + tail);
    assert(tail[0] == between[0]);
    text::first_word_is_what_blanks_enclose(before, first, tail);
    text::first_word_is_what_blanks_enclose(between, second, rest);
}

/// A line without a second word says nothing.
pub proof fn line_needs_two_words(before: Seq<char>, first: Seq<char>, after: Seq<char>)
    requires
        forall|k: int| 0 <= k < before.len() ==> text::blank(#[trigger] before[k]),
        forall|k: int| 0 <= k < first.len() ==> !text::blank(#[trigger] first[k]),
        forall|k: int| 0 <= k < after.len() ==> text::blank(#[trigger] after[k]),
        first.len() > 0 || after.len() == 0,
    ensures
        entry(before + first + after) is None,
{
    text::first_word_is_what_blanks_enclose(before, first, after);
    text::first_word_is_what_blanks_enclose(after, Seq::empty(), Seq::empty());
    assert(after + Seq::<char>::empty() + Seq::<char>::empty() =~= after);
}

proof fn decimal_has_no_blanks(n: int)
    requires
        0 <= n,
    ensures
        text::decimal(n).len() > 0,
        forall|k: int|
            0 <= k < text::decimal(n).len() ==> !text::blank(#[trigger] text::decimal(n)[k]),
{
    text::decimal_stands_for_its_number(n);
    assert forall|k: int| 0 <= k < text::decimal(n).len() implies !text::blank(
        #[trigger] text::decimal(n)[k],
    ) by {
        assert(48 <= text::decimal(n)[k] as int <= 57);
    }
}

/// A line made up of a number of at most 64 bits in decimal notation, a space and a word
/// tells of that number as the activity, however large it is, and of that word as the
/// session.
pub proof fn number_and_word_are_read_back(n: int, word: Seq<char>)
    requires
        0 <= n <= 0xffff_ffff_ffff_ffff,
        word.len() > 0,
        forall|k: int| 0 <= k < word.len() ==> !text::blank(#[trigger] word[k]),
    ensures
        entry(text::decimal(n) + " "@ + word) == Some(Entry { activity: n, session: word }),
{
    reveal_strlit(" ");
    decimal_has_no_blanks(n);
    text::decimal_is_read_back(n);
    line_is_read_word_by_word(Seq::empty(), text::decimal(n), " "@, word, Seq::empty());
    assert(Seq::<char>::empty() + text::decimal(n) + " "@ + word + Seq::<char>::empty()
        =~= text::decimal(n) + " "@ + word);
}

/// The session found is that of the line with the greatest activity, and of the last such
/// line if there are several; lines that say nothing are passed over, and without any other
/// line no session is found.
pub proof fn greatest_activity_decides(listing: &str, r: Option<String>, i: int)
    requires
        call_ensures(query_active_session, (listing,), r),
    ensures
        ({
            let lines = text::pieces(listing@, '\n');
            &&& 0 <= i < lines.len() && entry(lines[i]) is Some && (forall|j: int|
                0 <= j < lines.len() && j != i && entry(#[trigger] lines[j]) is Some ==> {
                    ||| entry(lines[j])->0.activity < entry(lines[i])->0.activity
                    ||| entry(lines[j])->0.activity == entry(lines[i])->0.activity && j < i
                }) ==> r is Some && r->0@ == entry(lines[i])->0.session
            &&& (forall|j: int| 0 <= j < lines.len() ==> entry(#[trigger] lines[j]) is None)
                ==> r is None
        }),
{
    let lines = text::pieces(listing@, '\n');
    if 0 <= i < lines.len() && entry(lines[i]) is Some && (forall|j: int|
        0 <= j < lines.len() && j != i && entry(#[trigger] lines[j]) is Some ==> {
            ||| entry(lines[j])->0.activity < entry(lines[i])->0.activity
            ||| entry(lines[j])->0.activity == entry(lines[i])->0.activity && j < i
        }) {
        assert(is_latest(lines, i));
        assert(r is Some);
        let k = choose|k: int|
            is_latest(lines, k) && entry(#[trigger] lines[k])->0.session == r->0@;
        latest_is_unique(lines, i, k);
    }
    if forall|j: int| 0 <= j < lines.len() ==> entry(#[trigger] lines[j]) is None {
        if r is Some {
            let k = choose|k: int|
                is_latest(lines, k) && entry(#[trigger] lines[k])->0.session == r->0@;
            assert(entry(lines[k]) is None);
        }
    }
}

/// The listing of some clients, as tmux prints it: the activity, a space and the session of
/// each client, on a line of its own.
pub open spec fn listing_of(entries: Seq<Entry>) -> Seq<char>
    decreases entries.len(),
{
    if entries.len() == 0 {
        Seq::empty()
    } else {
        listing_of(entries.drop_last()) + text::decimal(entries.last().activity) + " "@
            + entries.last().session + "\n"@
    }
}

/// The lines of a listing, without what ends them.
spec fn rows(entries: Seq<Entry>) -> Seq<Seq<char>> {
    entries.map_values(|e: Entry| text::decimal(e.activity) + " "@ + e.session)
}

/// Whether entries can be printed and read again.
spec fn printable(entries: Seq<Entry>) -> bool {
    forall|j: int|
        #![trigger entries[j]]
        0 <= j < entries.len() ==> {
            &&& 0 <= entries[j].activity <= 0xffff_ffff_ffff_ffff
            &&& entries[j].session.len() > 0
            &&& forall|k: int|
                0 <= k < entries[j].session.len() ==> !text::blank(#[trigger] entries[j].session[k])
        }
}

proof fn row_is_one_line(n: int, word: Seq<char>)
    requires
        0 <= n,
        forall|k: int| 0 <= k < word.len() ==> !text::blank(#[trigger] word[k]),
    ensures
        forall|k: int|
            0 <= k < (text::decimal(n) + " "@ + word).len() ==> #[trigger] (text::decimal(n) + " "@
                + word)[k] != '\n',
{
    reveal_strlit(" ");
    decimal_has_no_blanks(n);
    let row = text::decimal(n) + " "@ + word;
    let d = text::decimal(n).len() as int;
    assert forall|k: int| 0 <= k < row.len() implies #[trigger] row[k] != '\n' by {
        if k < d {
            assert(row[k] == text::decimal(n)[k]);
        } else if k > d {
            assert(row[k] == word[k - d - 1]);
        }
    }
}

proof fn listing_has_its_rows(entries: Seq<Entry>)
    requires
        printable(entries),
    ensures
        text::pieces(listing_of(entries), '\n') == rows(entries).push(Seq::empty()),
        entries.len() > 0 ==> listing_of(entries).len() > 0 && listing_of(entries).last() == '\n'
            && text::pieces(listing_of(entries).drop_last(), '\n') == rows(entries),
    decreases entries.len(),
{
    reveal_strlit("\n");
    if entries.len() == 0 {
        assert(rows(entries).push(Seq::empty()) =~= text::pieces(listing_of(entries), '\n'));
    } else {
        let rest = entries.drop_last();
        let last = entries[entries.len() - 1];
        let row = text::decimal(last.activity) + " "@ + last.session;
        let before = listing_of(rest);
        let listing = listing_of(entries);
        assert forall|j: int| #![trigger rest[j]] 0 <= j < rest.len() implies {
            &&& 0 <= rest[j].activity <= 0xffff_ffff_ffff_ffff
            &&& rest[j].session.len() > 0
            &&& forall|k: int|
                0 <= k < rest[j].session.len() ==> !text::blank(#[trigger] rest[j].session[k])
        } by {
            assert(rest[j] == entries[j]);
        }
        listing_has_its_rows(rest);
        row_is_one_line(last.activity, last.session);
        text::unseparated_list_is_one_piece(row, '\n');
        assert(rows(entries) =~= rows(rest).push(row));
        assert(listing =~= (before + row).push('\n'));
        assert(listing.drop_last() =~= before + row);
        if rest.len() == 0 {
            assert(before + row =~= row);
            assert(rows(entries) =~= seq![row]);
        } else {
            let body = before.drop_last();
            assert(before =~= body.push('\n'));
            text::separator_parts_a_list(body, '\n', row);
            assert(rows(rest) + seq![row] =~= rows(entries));
        }
        text::separator_parts_a_list(before + row, '\n', Seq::empty());
        text::unseparated_list_is_one_piece(Seq::<char>::empty(), '\n');
        assert((before + row).push('\n') + Seq::<char>::empty() =~= listing);
        assert(rows(entries) + seq![Seq::<char>::empty()] =~= rows(entries).push(Seq::empty()));
    }
}

/// From the listing of some clients the session of the client that was active last is found,
/// whatever its place in the listing; the last one listed if several were active at the same
/// time; and none if there are no clients.
pub proof fn session_of_the_latest_client_is_found(
    entries: Seq<Entry>,
    listing: &str,
    r: Option<String>,
    i: int,
)
    requires
        call_ensures(query_active_session, (listing,), r),
        listing@ == listing_of(entries),
        forall|j: int|
            #![trigger entries[j]]
            0 <= j < entries.len() ==> {
                &&& 0 <= entries[j].activity <= 0xffff_ffff_ffff_ffff
                &&& entries[j].session.len() > 0
                &&& forall|k: int|
                    0 <= k < entries[j].session.len() ==> !text::blank(
                        #[trigger] entries[j].session[k],
                    )
            },
    ensures
        entries.len() == 0 ==> r is None,
        0 <= i < entries.len() && (forall|j: int|
            0 <= j < entries.len() && j != i ==> {
                ||| (#[trigger] entries[j]).activity < entries[i].activity
                ||| entries[j].activity == entries[i].activity && j < i
            }) ==> r is Some && r->0@ == entries[i].session,
{
    let lines = text::pieces(listing@, '\n');
    listing_has_its_rows(entries);
    line_needs_two_words(Seq::empty(), Seq::empty(), Seq::empty());
    assert(Seq::<char>::empty() + Seq::<char>::empty() + Seq::<char>::empty() =~= Seq::empty());
    assert forall|j: int| 0 <= j < entries.len() implies entry(#[trigger] lines[j]) == Some(
        entries[j],
    ) by {
        number_and_word_are_read_back(entries[j].activity, entries[j].session);
        assert(lines[j] == rows(entries)[j]);
    }
    assert(lines[entries.len() as int] == Seq::<char>::empty());
    greatest_activity_decides(listing, r, i);
    if 0 <= i < entries.len() && (forall|j: int|
        0 <= j < entries.len() && j != i ==> {
            ||| (#[trigger] entries[j]).activity < entries[i].activity
            ||| entries[j].activity == entries[i].activity && j < i
        }) {
        assert forall|j: int|
            0 <= j < lines.len() && j != i && entry(#[trigger] lines[j]) is Some implies {
            ||| entry(lines[j])->0.activity < entry(lines[i])->0.activity
            ||| entry(lines[j])->0.activity == entry(lines[i])->0.activity && j < i
        } by {
            assert(entry(lines[j]) == Some(entries[j]));
        }
        assert(entry(lines[i]) == Some(entries[i]));
    }
    if entries.len() == 0 {
        assert forall|j: int| 0 <= j < lines.len() implies entry(#[trigger] lines[j]) is None by {}
    }
}

/// Of two lines, the session on the one with the larger number is found, whichever of them
/// comes first.
pub proof fn larger_number_wins_in_either_order(
    n: int,
    word: Seq<char>,
    smaller: int,
    other: Seq<char>,
    listing: &str,
    r: Option<String>,
)
    requires
        call_ensures(query_active_session, (listing,), r),
        0 <= smaller < n <= 0xffff_ffff_ffff_ffff,
        word.len() > 0,
        forall|k: int| 0 <= k < word.len() ==> !text::blank(#[trigger] word[k]),
        other.len() > 0,
        forall|k: int| 0 <= k < other.len() ==> !text::blank(#[trigger] other[k]),
        listing@ == text::decimal(n) + " "@ + word + "\n"@ + text::decimal(smaller) + " "@ + other
            || listing@ == text::decimal(smaller) + " "@ + other + "\n"@ + text::decimal(n) + " "@
            + word,
    ensures
        r is Some,
        r->0@ == word,
{
    reveal_strlit("\n");
    let lines = text::pieces(listing@, '\n');
    let a = text::decimal(n) + " "@ + word;
    let b = text::decimal(smaller) + " "@ + other;
    number_and_word_are_read_back(n, word);
    number_and_word_are_read_back(smaller, other);
    row_is_one_line(n, word);
    row_is_one_line(smaller, other);
    text::unseparated_list_is_one_piece(a, '\n');
    text::unseparated_list_is_one_piece(b, '\n');
    if listing@ == text::decimal(n) + " "@ + word + "\n"@ + text::decimal(smaller) + " "@ + other {
        assert(listing@ =~= a.push('\n') + b);
        text::separator_parts_a_list(a, '\n', b);
        assert(lines =~= seq![a, b]);
        greatest_activity_decides(listing, r, 0);
    } else {
        assert(listing@ =~= b.push('\n') + a);
        text::separator_parts_a_list(b, '\n', a);
        assert(lines =~= seq![b, a]);
        greatest_activity_decides(listing, r, 1);
    }
}

/// tmux is asked for its clients, each with its activity, a space and its session.
pub proof fn clients_are_asked_for(args: Vec<&'static str>)
    requires
        call_ensures(listing_args, (), args),
    ensures
        args@.len() == 3,
        args@[0]@ == "list-clients"@,
        args@[1]@ == "-F"@,
        args@[2]@ == "#{client_activity} #{session_id}"@,
{
    let all = text::slices(args@);
    assert(all.len() == args@.len());
    assert(all[0] == args@[0]@ && all[1] == args@[1]@ && all[2] == args@[2]@);
}

} // verus!
