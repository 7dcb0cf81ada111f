//! The field as text, for a terminal.
use crate::field::{
    observed_views, DriftView, FieldState, FieldView, ObservedEntity, ObservedView,
};
use crate::fixed::{decimal, push_decimal, push_two_places, two_places};
use crate::stamp::{clock_text, to_clock};
use crate::store::{message_views, MessageRecord, MessageView};
use crate::text::{
    byte_len, can_cut, count_bytes, first_bytes, first_chars, joined, take_bytes, take_chars,
};
use vstd::prelude::*;
use vstd::string::*;

verus! {

/// A label with more characters than this is shortened.
pub const LABEL_WIDTH: usize = 32;

/// The width of the column in which labels stand.
pub const COLUMN: usize = 34;

/// How much of the horizon is shown.
pub const HORIZON_ROWS: usize = 6;

/// A message with more bytes than this is shortened.
pub const VOICE_BYTES: usize = 52;

/// The label, or its beginning where it is long.
pub open spec fn shortened(label: Seq<char>) -> Seq<char> {
    if label.len() > LABEL_WIDTH {
        first_chars(label, (LABEL_WIDTH - 1) as nat) + "…"@
    } else {
        label
    }
}

/// `s` with spaces behind it, up to `n` characters.
pub open spec fn padded(s: Seq<char>, n: nat) -> Seq<char>
    decreases n - s.len(),
{
    if s.len() >= n {
        s
    } else {
        padded(s.push(' '), n)
    }
}

/// What an entity is called in its column.
pub open spec fn label_column(label: Seq<char>) -> Seq<char> {
    padded(shortened(label), COLUMN as nat)
}

/// The line of something near.
pub open spec fn near_line(o: ObservedView) -> Seq<char> {
    let head = "  ● "@ + label_column(o.label) + " "@ + two_places(o.distance as int);
    match o.components {
        Some(c) => head + "  s:"@ + two_places(c[0] as int) + " r:"@ + two_places(c[1] as int)
            + " a:"@ + two_places(c[2] as int) + " t:"@ + two_places(c[3] as int) + " u:"@
            + two_places(c[4] as int) + "\n"@,
        None => head + "\n"@,
    }
}

/// The line of something on the horizon.
pub open spec fn horizon_line(o: ObservedView) -> Seq<char> {
    "  · "@ + label_column(o.label) + " "@ + two_places(o.distance as int) + "\n"@
}

/// A message, or its beginning where it is long.
pub open spec fn voice(text: Seq<char>) -> Seq<char> {
    if byte_len(text) > VOICE_BYTES {
        first_bytes(text, (VOICE_BYTES - 1) as nat) + "…"@
    } else {
        text
    }
}

/// The line of a message.
pub open spec fn voice_line(m: MessageView) -> Seq<char> {
    "  "@ + m.author + "  ·  \""@ + voice(m.text) + "\"\n"@
}

/// The lines of what is near.
pub open spec fn near_lines(near: Seq<ObservedView>) -> Seq<char>
    decreases near.len(),
{
    if near.len() == 0 {
        Seq::empty()
    } else {
        near_lines(near.drop_last()) + near_line(near.last())
    }
}

/// The lines of what is on the horizon.
pub open spec fn horizon_lines(horizon: Seq<ObservedView>) -> Seq<char>
    decreases horizon.len(),
{
    if horizon.len() == 0 {
        Seq::empty()
    } else {
        horizon_lines(horizon.drop_last()) + horizon_line(horizon.last())
    }
}

/// The lines of the messages.
pub open spec fn voice_lines(messages: Seq<MessageView>) -> Seq<char>
    decreases messages.len(),
{
    if messages.len() == 0 {
        Seq::empty()
    } else {
        voice_lines(messages.drop_last()) + voice_line(messages.last())
    }
}

/// The rule that frames the text.
pub open spec fn frame() -> Seq<char> {
    "━━━━━━━━━━━━━━━━━━━━━━━━━━━━━━━━━━━━━━━━━━━━"@
}

/// The rule under a heading.
pub open spec fn underline() -> Seq<char> {
    "  ─────────────────────────────────────────\n"@
}

/// What stands at the top.
pub open spec fn heading(f: FieldView) -> Seq<char> {
    frame() + "\n  GOLDEN PROTOCOL  ·  field state\n"@ + frame() + "\n\n  position  ·  "@
        + f.position + "\n  presence  ·  "@ + decimal(f.presence as nat) + "\n  density   ·  "@
        + two_places(f.density as int) + "\n  time      ·  "@ + clock_text(
        f.timestamp.secs,
        f.timestamp.nanos,
    ) + "\n\n"@
}

/// The part on what is near, where anything is.
pub open spec fn near_part(near: Seq<ObservedView>) -> Seq<char> {
    if near.len() == 0 {
        Seq::empty()
    } else {
        "  NEAR\n"@ + underline() + near_lines(near) + "\n"@
    }
}

/// How much of the horizon is shown.
pub open spec fn shown(horizon: Seq<ObservedView>) -> Seq<ObservedView> {
    if horizon.len() > HORIZON_ROWS {
        horizon.take(HORIZON_ROWS as int)
    } else {
        horizon
    }
}

/// What stands under the horizon: how much of it is not shown.
pub open spec fn beyond_line(n: nat) -> Seq<char> {
    if n > HORIZON_ROWS {
        "  … and "@ + decimal((n - HORIZON_ROWS) as nat) + " more beyond\n"@
    } else {
        Seq::empty()
    }
}

/// The part on what is on the horizon, where anything is.
pub open spec fn horizon_part(horizon: Seq<ObservedView>) -> Seq<char> {
    if horizon.len() == 0 {
        Seq::empty()
    } else {
        "  HORIZON\n"@ + underline() + horizon_lines(shown(horizon)) + beyond_line(horizon.len())
            + "\n"@
    }
}

/// The strongest current, where there is one.
pub open spec fn drift_part(drift: Seq<DriftView>) -> Seq<char> {
    if drift.len() == 0 {
        Seq::empty()
    } else {
        "  drift  →  "@ + drift[0].toward + " ("@ + two_places(drift[0].strength as int) + ")\n\n"@
    }
}

/// The part on what was said, where anything was.
pub open spec fn voices_part(messages: Seq<MessageView>) -> Seq<char> {
    if messages.len() == 0 {
        Seq::empty()
    } else {
        "  VOICES\n"@ + underline() + voice_lines(messages) + "\n"@
    }
}

/// What stands at the bottom.
pub open spec fn footer() -> Seq<char> {
    frame() + "\n  s=semantic r=relational a=activity t=temporal u=attention\n"@
        + "  curl \"https://space.gold3112.online/field?interest=YOUR_THOUGHT&format=text\"\n"@
        + frame() + "\n"@
}

/// The field as text.
pub open spec fn rendered(f: FieldView) -> Seq<char> {
    heading(f) + near_part(f.near) + horizon_part(f.horizon) + drift_part(f.drift) + voices_part(
        f.messages,
    ) + footer()
}

/// A long message can be cut where it is cut.
pub open spec fn speakable(text: Seq<char>) -> bool {
    byte_len(text) > VOICE_BYTES ==> can_cut(text, (VOICE_BYTES - 1) as nat)
}

/// The field can be written as text: its time is a calendar date, and its long messages can be
/// cut where they are cut.
pub open spec fn renderable(f: FieldView) -> bool {
    &&& f.timestamp.valid()
    &&& forall|i: int| 0 <= i < f.messages.len() ==> speakable((#[trigger] f.messages[i]).text)
}

/// The field can be written as text.
pub fn is_renderable(field: &FieldState) -> (r: bool)
    ensures
        r == renderable(field@),
{
    if !field.timestamp.is_valid() {
        return false;
    }
    let mut i: usize = 0;
    while i < field.messages.len()
        invariant
            i <= field.messages@.len(),
            forall|j: int| 0 <= j < i ==> speakable((#[trigger] field@.messages[j]).text),
        decreases field.messages@.len() - i,
    {
        let text = field.messages[i].text.as_str();
        assert(field@.messages[i as int].text == text@);
        if count_bytes(text) > VOICE_BYTES && !text.is_char_boundary(VOICE_BYTES - 1) {
            return false;
        }
        i = i + 1;
    }
    true
}

fn pad(s: &mut String, n: usize)
    ensures
        final(s)@ == padded(old(s)@, n as nat),
{
    while s.as_str().unicode_len() < n
        invariant
            padded(s@, n as nat) == padded(old(s)@, n as nat),
        decreases n - s@.len(),
    {
        s.push(' ');
    }
}

fn label_text(label: &str) -> (r: String)
    ensures
        r@ == label_column(label@),
{
    let mut r: String = if label.unicode_len() > LABEL_WIDTH {
        let start: String = take_chars(label, LABEL_WIDTH - 1);
        joined(start.as_str(), "…")
    } else {
        label.to_owned()
    };
    pad(&mut r, COLUMN);
    r
}

fn near_text(e: &ObservedEntity) -> (r: String)
    ensures
        r@ == near_line(e@),
{
    let mut r: String = "  ● ".to_owned();
    r.append(label_text(e.label.as_str()).as_str());
    r.append(" ");
    push_two_places(&mut r, e.distance);
    match e.components {
        Some(c) => {
            r.append("  s:");
            push_two_places(&mut r, c[0]);
            r.append(" r:");
            push_two_places(&mut r, c[1]);
            r.append(" a:");
            push_two_places(&mut r, c[2]);
            r.append(" t:");
            push_two_places(&mut r, c[3]);
            r.append(" u:");
            push_two_places(&mut r, c[4]);
            r.append("\n");
        },
        None => {
            r.append("\n");
        },
    }
    r
}

fn horizon_text(e: &ObservedEntity) -> (r: String)
    ensures
        r@ == horizon_line(e@),
{
    let mut r: String = "  · ".to_owned();
    r.append(label_text(e.label.as_str()).as_str());
    r.append(" ");
    push_two_places(&mut r, e.distance);
    r.append("\n");
    r
}

fn voice_text(m: &MessageRecord) -> (r: String)
    requires
        speakable(m@.text),
    ensures
        r@ == voice_line(m@),
{
    let mut r: String = "  ".to_owned();
    r.append(m.author.as_str());
    r.append("  ·  \"");
    if count_bytes(m.text.as_str()) > VOICE_BYTES {
        let start: String = take_bytes(m.text.as_str(), VOICE_BYTES - 1);
        r.append(joined(start.as_str(), "…").as_str());
    } else {
        r.append(m.text.as_str());
    }
    r.append("\"\n");
    r
}

fn heading_text(field: &FieldState) -> (r: String)
    requires
        field.timestamp.valid(),
    ensures
        r@ == heading(field@),
{
    let mut r: String = "━━━━━━━━━━━━━━━━━━━━━━━━━━━━━━━━━━━━━━━━━━━━".to_owned();
    r.append("\n  GOLDEN PROTOCOL  ·  field state\n");
    r.append("━━━━━━━━━━━━━━━━━━━━━━━━━━━━━━━━━━━━━━━━━━━━");
    r.append("\n\n  position  ·  ");
    r.append(field.position.as_str());
    r.append("\n  presence  ·  ");
    push_decimal(&mut r, field.presence as u128);
    r.append("\n  density   ·  ");
    push_two_places(&mut r, field.density);
    r.append("\n  time      ·  ");
    r.append(to_clock(field.timestamp).as_str());
    r.append("\n\n");
    r
}

fn near_section(near: &Vec<ObservedEntity>) -> (r: String)
    ensures
        r@ == near_part(observed_views(near@)),
{
    let n: usize = near.len();
    if n == 0 {
        return String::new();
    }
    let ghost views = observed_views(near@);
    let mut r: String = "  NEAR\n".to_owned();
    r.append("  ─────────────────────────────────────────\n");
    let ghost start = r@;
    let mut i: usize = 0;
    proof {
        assert(start + near_lines(views.take(0)) =~= start);
    }
    while i < n
        invariant
            i <= n,
            n == near@.len(),
            views == observed_views(near@),
            r@ == start + near_lines(views.take(i as int)),
        decreases n - i,
    {
        proof {
            assert(views.take(i + 1).drop_last() =~= views.take(i as int));
            assert(views.take(i + 1).last() == near@[i as int]@);
            assert(start + (near_lines(views.take(i as int)) + near_line(near@[i as int]@)) =~= (
            start + near_lines(views.take(i as int))) + near_line(near@[i as int]@));
        }
        r.append(near_text(&near[i]).as_str());
        i = i + 1;
    }
    proof {
        assert(views.take(i as int) =~= views);
    }
    r.append("\n");
    r
}

fn horizon_section(horizon: &Vec<ObservedEntity>) -> (r: String)
    ensures
        r@ == horizon_part(observed_views(horizon@)),
{
    let n: usize = horizon.len();
    if n == 0 {
        return String::new();
    }
    let ghost views = observed_views(horizon@);
    let rows: usize = if n > HORIZON_ROWS {
        HORIZON_ROWS
    } else {
        n
    };
    let mut r: String = "  HORIZON\n".to_owned();
    r.append("  ─────────────────────────────────────────\n");
    let ghost start = r@;
    let mut i: usize = 0;
    proof {
        assert(start + horizon_lines(views.take(0)) =~= start);
    }
    while i < rows
        invariant
            i <= rows <= n,
            n == horizon@.len(),
            views == observed_views(horizon@),
            r@ == start + horizon_lines(views.take(i as int)),
        decreases rows - i,
    {
        proof {
            assert(views.take(i + 1).drop_last() =~= views.take(i as int));
            assert(views.take(i + 1).last() == horizon@[i as int]@);
            assert(start + (horizon_lines(views.take(i as int)) + horizon_line(
                horizon@[i as int]@,
            )) =~= (start + horizon_lines(views.take(i as int))) + horizon_line(
                horizon@[i as int]@,
            ));
        }
        r.append(horizon_text(&horizon[i]).as_str());
        i = i + 1;
    }
    proof {
        assert(views.take(i as int) =~= shown(views));
    }
    if n > HORIZON_ROWS {
        let mut more: String = "  … and ".to_owned();
        push_decimal(&mut more, (n - HORIZON_ROWS) as u128);
        more.append(" more beyond\n");
        r.append(more.as_str());
    } else {
        proof {
            assert(r@ + beyond_line(n as nat) =~= r@);
        }
    }
    r.append("\n");
    r
}

fn voices_section(messages: &Vec<MessageRecord>) -> (r: String)
    requires
        forall|i: int| 0 <= i < messages@.len() ==> speakable((#[trigger] messages@[i])@.text),
    ensures
        r@ == voices_part(message_views(messages@)),
{
    let n: usize = messages.len();
    if n == 0 {
        return String::new();
    }
    let ghost views = message_views(messages@);
    let mut r: String = "  VOICES\n".to_owned();
    r.append("  ─────────────────────────────────────────\n");
    let ghost start = r@;
    let mut i: usize = 0;
    proof {
        assert(start + voice_lines(views.take(0)) =~= start);
    }
    while i < n
        invariant
            i <= n,
            n == messages@.len(),
            views == message_views(messages@),
            forall|j: int| 0 <= j < messages@.len() ==> speakable((#[trigger] messages@[j])@.text),
            r@ == start + voice_lines(views.take(i as int)),
        decreases n - i,
    {
        proof {
            assert(views.take(i + 1).drop_last() =~= views.take(i as int));
            assert(views.take(i + 1).last() == messages@[i as int]@);
            assert(start + (voice_lines(views.take(i as int)) + voice_line(messages@[i as int]@))
                =~= (start + voice_lines(views.take(i as int))) + voice_line(
                messages@[i as int]@,
            ));
        }
        r.append(voice_text(&messages[i]).as_str());
        i = i + 1;
    }
    proof {
        assert(views.take(i as int) =~= views);
    }
    r.append("\n");
    r
}

fn drift_section(field: &FieldState) -> (r: String)
    ensures
        r@ == drift_part(field@.drift),
{
    if field.drift.len() == 0 {
        return String::new();
    }
    let first = &field.drift[0];
    let mut r: String = "  drift  →  ".to_owned();
    r.append(first.toward.as_str());
    r.append(" (");
    push_two_places(&mut r, first.strength);
    r.append(")\n\n");
    r
}

/// Writes the field as text.
pub fn render_field_text(field: &FieldState) -> (r: String)
    requires
        renderable(field@),
    ensures
        r@ == rendered(field@),
{
    proof {
        assert forall|i: int| 0 <= i < field.messages@.len() implies speakable(
            (#[trigger] field.messages@[i])@.text,
        ) by {
            assert(field@.messages[i] == field.messages@[i]@);
        }
    }
    let mut r: String = heading_text(field);
    r.append(near_section(&field.near).as_str());
    r.append(horizon_section(&field.horizon).as_str());
    r.append(drift_section(field).as_str());
    r.append(voices_section(&field.messages).as_str());
    let mut end: String = "━━━━━━━━━━━━━━━━━━━━━━━━━━━━━━━━━━━━━━━━━━━━".to_owned();
    end.append("\n  s=semantic r=relational a=activity t=temporal u=attention\n");
    end.append("  curl \"https://space.gold3112.online/field?interest=YOUR_THOUGHT&format=text\"\n");
    end.append("━━━━━━━━━━━━━━━━━━━━━━━━━━━━━━━━━━━━━━━━━━━━");
    end.append("\n");
    r.append(end.as_str());
    r
}

/// A label of up to 32 characters stands as it is; of a longer one stand the first 31 and a mark.
pub proof fn long_labels_are_shortened(label: Seq<char>)
    ensures
        label.len() <= 32 ==> shortened(label) == label,
        label.len() > 32 ==> shortened(label) == label.take(31) + "…"@,
{
}

/// Padding puts nothing but spaces behind a text, as many as are missing.
pub proof fn padding_is_spaces(s: Seq<char>, n: nat)
    ensures
        padded(s, n).len() == if s.len() < n {
            n
        } else {
            s.len()
        },
        forall|i: int|
            0 <= i < padded(s, n).len() ==> #[trigger] padded(s, n)[i] == if i < s.len() {
                s[i]
            } else {
                ' '
            },
    decreases n - s.len(),
{
    if s.len() < n {
        padding_is_spaces(s.push(' '), n);
    }
}

/// Labels stand in a column of 34 characters.
pub proof fn labels_stand_in_a_column(label: Seq<char>)
    ensures
        label_column(label).len() == 34,
        label.len() <= 32 ==> label_column(label).take(label.len() as int) == label,
{
    reveal_strlit("…");
    padding_is_spaces(shortened(label), 34);
    if label.len() <= 32 {
        assert(label_column(label).take(label.len() as int) =~= label);
    }
}

/// A message of up to 52 bytes is heard as it is; of a longer one what the first 51 bytes hold,
/// and a mark.
pub proof fn long_messages_are_shortened(text: Seq<char>)
    ensures
        byte_len(text) <= 52 ==> voice(text) == text,
        byte_len(text) > 52 ==> voice(text) == first_bytes(text, 51) + "…"@,
        speakable(text) <==> byte_len(text) <= 52 || can_cut(text, 51),
{
}

/// What is near is written line by line, in its order.
pub proof fn near_is_written_in_order(a: Seq<ObservedView>, b: Seq<ObservedView>)
    ensures
        near_lines(a + b) == near_lines(a) + near_lines(b),
        a.len() == 1 ==> near_lines(a) == near_line(a[0]),
    decreases b.len(),
{
    reveal_with_fuel(near_lines, 2);
    if a.len() == 1 {
        assert(near_lines(a.drop_last()) =~= Seq::<char>::empty());
        assert(near_lines(a) =~= near_line(a[0]));
    }
    if b.len() == 0 {
        assert(a + b =~= a);
        assert(near_lines(a) + near_lines(b) =~= near_lines(a));
    } else {
        near_is_written_in_order(a, b.drop_last());
        assert((a + b).drop_last() =~= a + b.drop_last());
        assert(near_lines(a + b) =~= near_lines(a) + near_lines(b));
    }
}

/// What is on the horizon is written line by line, in its order.
pub proof fn horizon_is_written_in_order(a: Seq<ObservedView>, b: Seq<ObservedView>)
    ensures
        horizon_lines(a + b) == horizon_lines(a) + horizon_lines(b),
        a.len() == 1 ==> horizon_lines(a) == horizon_line(a[0]),
    decreases b.len(),
{
    reveal_with_fuel(horizon_lines, 2);
    if a.len() == 1 {
        assert(horizon_lines(a.drop_last()) =~= Seq::<char>::empty());
        assert(horizon_lines(a) =~= horizon_line(a[0]));
    }
    if b.len() == 0 {
        assert(a + b =~= a);
        assert(horizon_lines(a) + horizon_lines(b) =~= horizon_lines(a));
    } else {
        horizon_is_written_in_order(a, b.drop_last());
        assert((a + b).drop_last() =~= a + b.drop_last());
        assert(horizon_lines(a + b) =~= horizon_lines(a) + horizon_lines(b));
    }
}

/// Messages are written line by line, in their order.
pub proof fn voices_are_written_in_order(a: Seq<MessageView>, b: Seq<MessageView>)
    ensures
        voice_lines(a + b) == voice_lines(a) + voice_lines(b),
        a.len() == 1 ==> voice_lines(a) == voice_line(a[0]),
    decreases b.len(),
{
    reveal_with_fuel(voice_lines, 2);
    if a.len() == 1 {
        assert(voice_lines(a.drop_last()) =~= Seq::<char>::empty());
        assert(voice_lines(a) =~= voice_line(a[0]));
    }
    if b.len() == 0 {
        assert(a + b =~= a);
        assert(voice_lines(a) + voice_lines(b) =~= voice_lines(a));
    } else {
        voices_are_written_in_order(a, b.drop_last());
        assert((a + b).drop_last() =~= a + b.drop_last());
        assert(voice_lines(a + b) =~= voice_lines(a) + voice_lines(b));
    }
}

/// Up to six on the horizon are shown, the nearest ones, and how many more there are is told.
pub proof fn six_of_the_horizon_are_shown(horizon: Seq<ObservedView>)
    ensures
        shown(horizon).len() == if horizon.len() < 6 {
            horizon.len()
        } else {
            6
        },
        forall|i: int| 0 <= i < shown(horizon).len() ==> #[trigger] shown(horizon)[i] == horizon[i],
        horizon.len() <= 6 ==> beyond_line(horizon.len()).len() == 0,
        horizon.len() > 6 ==> beyond_line(horizon.len()) == "  … and "@ + decimal(
            (horizon.len() - 6) as nat,
        ) + " more beyond\n"@,
{
}

/// The text says where one is, then what is near, what is on the horizon, where the space flows
/// to and what was said, each part just where there is anything of it.
pub proof fn the_text_tells_of_the_field(f: FieldView)
    ensures
        ({
            let rest = drift_part(f.drift) + voices_part(f.messages) + footer();
            rendered(f) == heading(f) + (near_part(f.near) + (horizon_part(f.horizon) + rest))
        }),
        f.near.len() == 0 <==> near_part(f.near).len() == 0,
        f.horizon.len() == 0 <==> horizon_part(f.horizon).len() == 0,
        f.drift.len() == 0 <==> drift_part(f.drift).len() == 0,
        f.messages.len() == 0 <==> voices_part(f.messages).len() == 0,
{
    reveal_strlit("  NEAR\n");
    reveal_strlit("  HORIZON\n");
    reveal_strlit("  drift  →  ");
    reveal_strlit("  VOICES\n");
    let rest = drift_part(f.drift) + voices_part(f.messages) + footer();
    assert(rendered(f) =~= heading(f) + (near_part(f.near) + (horizon_part(f.horizon) + rest)));
}

} // verus!
