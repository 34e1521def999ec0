//! What a subscription says of its traffic, read from a response header and shown as a label.
use crate::calendar::expire_text;
use crate::calendar::format_expire;
use crate::model::SubscriptionTraffic;
use crate::number::decimal;
use crate::number::decimal_text;
use crate::number::law_padding;
use crate::number::law_reading_signed;
use crate::number::law_reading_unsigned;
use crate::number::law_writing;
use crate::number::padded;
use crate::number::padded_text;
use crate::number::parse_i64;
use crate::number::parse_u64;
use crate::number::read_i64;
use crate::number::read_u64;
use crate::rounding::gib_hundredths;
use crate::rounding::hundredths_of_gib;
use crate::rounding::percent;
use crate::rounding::percent_of;
use crate::text::cut_at_first;
use crate::text::cut_text;
use crate::text::is_blank;
use crate::text::is_white_space;
use crate::text::law_cut_at_the_first;
use crate::text::law_one_part_without_separator;
use crate::text::law_parts_of_joined_texts;
use crate::text::law_trim_cuts_white_space;
use crate::text::law_trim_ignores_blanks;
use crate::text::law_trim_in_steps;
use crate::text::lemma_cut_at;
use crate::text::lemma_trim_end_behind;
use crate::text::lemma_trim_start_before;
use crate::text::same_text;
use crate::text::split_on;
use crate::text::split_text;
use crate::text::trim;
use crate::text::trim_end;
use crate::text::trim_start;
use crate::text::trim_text;
use vstd::prelude::*;
use vstd::string::StringExecFns;

verus! {

// ---------------------------------------------------------------------------
// Reading
// ---------------------------------------------------------------------------

/// The key and the value of one part of the header: what stands before and behind the first
/// `=`, without the white space around it.
pub open spec fn entry_of(part: Seq<char>) -> Option<(Seq<char>, Seq<char>)> {
    match cut_at_first(trim(part), '=') {
        Some((key, value)) => Some((trim(key), trim(value))),
        None => None,
    }
}

/// The value of a part, if `key` is its key and the value is an unsigned number.
pub open spec fn amount_in(part: Seq<char>, key: Seq<char>) -> Option<u64> {
    match entry_of(part) {
        Some((name, value)) => if name == key {
            read_u64(value)
        } else {
            None
        },
        None => None,
    }
}

/// The value of a part, if `key` is its key and the value is a signed number.
pub open spec fn time_in(part: Seq<char>, key: Seq<char>) -> Option<i64> {
    match entry_of(part) {
        Some((name, value)) => if name == key {
            read_i64(value)
        } else {
            None
        },
        None => None,
    }
}

/// The last amount that is given for `key`.
pub open spec fn last_amount(parts: Seq<Seq<char>>, key: Seq<char>) -> Option<u64>
    decreases parts.len(),
{
    if parts.len() == 0 {
        None
    } else {
        match amount_in(parts.last(), key) {
            Some(amount) => Some(amount),
            None => last_amount(parts.drop_last(), key),
        }
    }
}

/// The last time that is given for `key`.
pub open spec fn last_time(parts: Seq<Seq<char>>, key: Seq<char>) -> Option<i64>
    decreases parts.len(),
{
    if parts.len() == 0 {
        None
    } else {
        match time_in(parts.last(), key) {
            Some(time) => Some(time),
            None => last_time(parts.drop_last(), key),
        }
    }
}

/// What the parts of a header say.
pub open spec fn traffic_in(parts: Seq<Seq<char>>) -> SubscriptionTraffic {
    SubscriptionTraffic {
        upload: last_amount(parts, "upload"@),
        download: last_amount(parts, "download"@),
        total: last_amount(parts, "total"@),
        expire: last_time(parts, "expire"@),
    }
}

/// Nothing is known.
pub open spec fn says_nothing(traffic: SubscriptionTraffic) -> bool {
    &&& traffic.upload is None
    &&& traffic.download is None
    &&& traffic.total is None
    &&& traffic.expire is None
}

/// What a header says, if it says anything.
pub open spec fn userinfo(raw: Seq<char>) -> Option<SubscriptionTraffic> {
    let traffic = traffic_in(split_on(raw, ';'));
    if says_nothing(traffic) {
        None
    } else {
        Some(traffic)
    }
}

proof fn lemma_keys_differ()
    ensures
        "upload"@ != "download"@,
        "upload"@ != "total"@,
        "upload"@ != "expire"@,
        "download"@ != "total"@,
        "download"@ != "expire"@,
        "total"@ != "expire"@,
{
    reveal_strlit("upload");
    reveal_strlit("download");
    reveal_strlit("total");
    reveal_strlit("expire");
    assert("upload"@.len() == 6 && "download"@.len() == 8 && "total"@.len() == 5);
    assert("expire"@.len() == 6);
    assert("upload"@[0] == 'u' && "expire"@[0] == 'e');
}

/// `traffic` with what one part of the header adds to it or replaces in it.
fn read_part(part: &str, traffic: SubscriptionTraffic) -> (updated: SubscriptionTraffic)
    ensures
        updated.upload == (match amount_in(part@, "upload"@) {
            Some(amount) => Some(amount),
            None => traffic.upload,
        }),
        updated.download == (match amount_in(part@, "download"@) {
            Some(amount) => Some(amount),
            None => traffic.download,
        }),
        updated.total == (match amount_in(part@, "total"@) {
            Some(amount) => Some(amount),
            None => traffic.total,
        }),
        updated.expire == (match time_in(part@, "expire"@) {
            Some(time) => Some(time),
            None => traffic.expire,
        }),
{
    let mut updated: SubscriptionTraffic = traffic;
    proof {
        lemma_keys_differ();
    }
    if let Some((left, right)) = cut_text(trim_text(part), '=') {
        let key = trim_text(left);
        let value = trim_text(right);
        if same_text(key, "upload") {
            if let Some(amount) = parse_u64(value) {
                updated.upload = Some(amount);
            }
        } else if same_text(key, "download") {
            if let Some(amount) = parse_u64(value) {
                updated.download = Some(amount);
            }
        } else if same_text(key, "total") {
            if let Some(amount) = parse_u64(value) {
                updated.total = Some(amount);
            }
        } else if same_text(key, "expire") {
            if let Some(time) = parse_i64(value) {
                updated.expire = Some(time);
            }
        }
    }
    updated
}

/// What the header `subscription-userinfo` says: `upload=; download=; total=; expire=`, in any
/// order, with white space or without. A later value replaces an earlier one; a value that is no
/// number is passed over. `None` if nothing is said.
pub fn parse_subscription_userinfo(raw: &str) -> (traffic: Option<SubscriptionTraffic>)
    ensures
        traffic == userinfo(raw@),
{
    let parts = split_text(raw, ';');
    let ghost texts = split_on(raw@, ';');
    let mut traffic: SubscriptionTraffic = SubscriptionTraffic {
        upload: None,
        download: None,
        total: None,
        expire: None,
    };
    assert(texts.take(0) =~= Seq::<Seq<char>>::empty());
    for i in 0..parts.len()
        invariant
            texts == parts@.map_values(|part: &str| part@),
            traffic == traffic_in(texts.take(i as int)),
    {
        assert(texts[i as int] == parts@[i as int]@);
        assert(texts.take(i + 1).drop_last() =~= texts.take(i as int));
        traffic = read_part(parts[i], traffic);
    }
    assert(texts.take(texts.len() as int) =~= texts);
    if traffic.upload.is_none() && traffic.download.is_none() && traffic.total.is_none()
        && traffic.expire.is_none() {
        None
    } else {
        Some(traffic)
    }
}

/// White space around a part of the header, around its key and around its value means nothing.
pub proof fn law_blanks_in_userinfo(
    before: Seq<char>,
    key: Seq<char>,
    value: Seq<char>,
    after: Seq<char>,
)
    requires
        is_blank(before),
        is_blank(after),
        !key.contains('='),
    ensures
        entry_of(before + (key + seq!['='] + value) + after) == Some((trim(key), trim(value))),
{
    let part = key + seq!['='] + value;
    law_trim_ignores_blanks(before, part, after);
    let tail = seq!['='] + value;
    assert(part =~= key + tail);
    lemma_trim_start_before(key, tail);
    let lead = trim_start(key);
    let front = lead.push('=');
    assert(lead + tail =~= front + value);
    lemma_trim_end_behind(front, value);
    let kept = front + trim_end(value);
    assert(trim(part) == kept);
    assert forall|j: int| 0 <= j < lead.len() implies kept[j] != '=' by {
        assert(kept[j] == lead[j]);
        lemma_trim_start_within(key, j);
    }
    lemma_cut_at(kept, '=', lead.len() as int);
    assert(kept.take(lead.len() as int) =~= lead);
    assert(kept.skip(lead.len() as int + 1) =~= trim_end(value));
    law_trim_in_steps(key);
    law_trim_in_steps(value);
}

proof fn lemma_trim_start_within(text: Seq<char>, i: int)
    requires
        0 <= i < trim_start(text).len(),
    ensures
        text.contains(trim_start(text)[i]),
    decreases text.len(),
{
    if text.len() > 0 && is_white_space(text[0]) {
        lemma_trim_start_within(text.drop_first(), i);
        let c = trim_start(text)[i];
        let j = choose|j: int| 0 <= j < text.drop_first().len() && text.drop_first()[j] == c;
        assert(text[j + 1] == c);
    } else {
        assert(text[i] == trim_start(text)[i]);
    }
}

// ---------------------------------------------------------------------------
// Showing
// ---------------------------------------------------------------------------

/// A size in GiB with two decimals.
pub open spec fn gib_text(bytes: u64) -> Seq<char> {
    let hundredths = hundredths_of_gib(bytes as nat);
    decimal(hundredths / 100) + "."@ + padded(hundredths % 100, 2) + "GB"@
}

/// A size in GiB with two decimals.
pub fn format_bytes_gib(bytes: u64) -> (text: String)
    ensures
        text@ == gib_text(bytes),
{
    let hundredths: u64 = gib_hundredths(bytes);
    let mut text = decimal_text(hundredths / 100);
    text.append(".");
    text.append(padded_text(hundredths % 100, 2).as_str());
    text.append("GB");
    text
}

/// The number in `number`, or 0.
pub open spec fn or_zero(number: Option<u64>) -> u64 {
    match number {
        Some(n) => n,
        None => 0,
    }
}

/// Upload and download together, up to `u64::MAX`.
pub open spec fn used_bytes(traffic: SubscriptionTraffic) -> u64 {
    let sum = or_zero(traffic.upload) + or_zero(traffic.download);
    if sum > u64::MAX {
        u64::MAX
    } else {
        sum as u64
    }
}

/// How much is used, of how much, as far as it is known.
pub open spec fn usage_text(traffic: SubscriptionTraffic) -> Seq<char> {
    let used = used_bytes(traffic);
    match traffic.total {
        Some(total) => if total > 0 {
            gib_text(used) + "/"@ + gib_text(total) + " ("@ + decimal(
                percent(used as nat, total as nat),
            ) + "%)"@
        } else {
            gib_text(used) + "/?"@
        },
        None => if traffic.upload is Some || traffic.download is Some {
            gib_text(used) + " used"@
        } else {
            "流量未知"@
        },
    }
}

/// The label of an airport's traffic: its name, its usage and, if known, when it expires.
pub open spec fn traffic_label(airport: Seq<char>, traffic: SubscriptionTraffic) -> Seq<char> {
    let label = airport + " | "@ + usage_text(traffic);
    match traffic.expire {
        Some(ts) => label + " | 到期 "@ + expire_text(ts),
        None => label,
    }
}

/// How much is used, of how much, as far as it is known.
fn format_usage(t: &SubscriptionTraffic) -> (text: String)
    ensures
        text@ == usage_text(*t),
{
    let used: u64 = t.upload.unwrap_or(0).saturating_add(t.download.unwrap_or(0));
    match t.total {
        Some(total) => {
            let mut text = format_bytes_gib(used);
            if total > 0 {
                text.append("/");
                text.append(format_bytes_gib(total).as_str());
                text.append(" (");
                text.append(decimal_text(percent_of(used, total)).as_str());
                text.append("%)");
            } else {
                text.append("/?");
            }
            text
        },
        None => {
            if t.upload.is_some() || t.download.is_some() {
                let mut text = format_bytes_gib(used);
                text.append(" used");
                text
            } else {
                "流量未知".to_owned()
            }
        },
    }
}

/// The label of an airport's traffic: its name, its usage and, if known, when it expires.
pub fn format_traffic_label(airport: &str, t: &SubscriptionTraffic) -> (label: String)
    ensures
        label@ == traffic_label(airport@, *t),
{
    let mut label = airport.to_owned();
    label.append(" | ");
    label.append(format_usage(t).as_str());
    if let Some(ts) = t.expire {
        label.append(" | 到期 ");
        label.append(format_expire(ts).as_str());
    }
    label
}

// ---------------------------------------------------------------------------
// Laws
// ---------------------------------------------------------------------------

/// What a header says of each key, with nothing where it says nothing at all.
pub open spec fn fields_of(raw: Seq<char>) -> SubscriptionTraffic {
    match userinfo(raw) {
        Some(traffic) => traffic,
        None => SubscriptionTraffic { upload: None, download: None, total: None, expire: None },
    }
}

/// What a header of one part says: `key`, `=` and `value`, with white space around them or not.
/// For the keys of amounts it is the unsigned number that the value is, whatever its size; for
/// `expire` the signed number; for any other key nothing. Nothing is said of the other keys.
pub proof fn law_one_part(
    before: Seq<char>,
    key: Seq<char>,
    value: Seq<char>,
    after: Seq<char>,
)
    requires
        is_blank(before),
        is_blank(after),
        !key.contains('='),
        !(before + (key + seq!['='] + value) + after).contains(';'),
    ensures
        fields_of(before + (key + seq!['='] + value) + after) == (SubscriptionTraffic {
            upload: if trim(key) == "upload"@ {
                read_u64(trim(value))
            } else {
                None
            },
            download: if trim(key) == "download"@ {
                read_u64(trim(value))
            } else {
                None
            },
            total: if trim(key) == "total"@ {
                read_u64(trim(value))
            } else {
                None
            },
            expire: if trim(key) == "expire"@ {
                read_i64(trim(value))
            } else {
                None
            },
        }),
{
    let part = before + (key + seq!['='] + value) + after;
    law_blanks_in_userinfo(before, key, value, after);
    law_one_part_without_separator(part, ';');
    lemma_one_part(part);
}

/// The only part of a header says all that it says.
proof fn lemma_one_part(part: Seq<char>)
    ensures
        traffic_in(seq![part]) == (SubscriptionTraffic {
            upload: amount_in(part, "upload"@),
            download: amount_in(part, "download"@),
            total: amount_in(part, "total"@),
            expire: time_in(part, "expire"@),
        }),
{
    let parts = seq![part];
    assert(parts.drop_last() =~= Seq::<Seq<char>>::empty());
    assert(parts.last() == part);
    reveal_with_fuel(last_amount, 2);
    reveal_with_fuel(last_time, 2);
}

/// A part without `=` says nothing.
pub proof fn law_part_without_value(part: Seq<char>)
    requires
        !part.contains('='),
        !part.contains(';'),
    ensures
        userinfo(part) is None,
{
    law_one_part_without_separator(part, ';');
    lemma_one_part(part);
    law_cut_at_the_first(trim(part), '=');
    if let Some((head, tail)) = cut_at_first(trim(part), '=') {
        assert((head.push('=') + tail)[head.len() as int] == '=');
        assert(trim(part).contains('='));
    }
    law_trim_cuts_white_space(part);
    let (before, after) = choose|before: Seq<char>, after: Seq<char>|
        is_blank(before) && is_blank(after) && #[trigger] (before + trim(part) + after) == part;
    if trim(part).contains('=') {
        let i = choose|i: int| 0 <= i < trim(part).len() && trim(part)[i] == '=';
        assert((before + trim(part) + after)[before.len() + i] == '=');
    }
}

/// Of two headers that are joined by `;`, the second counts where it says something of a key, and
/// otherwise the first.
pub proof fn law_joined_headers(a: Seq<char>, b: Seq<char>)
    ensures
        ({
            let joined = fields_of(a.push(';') + b);
            let (first, second) = (fields_of(a), fields_of(b));
            &&& joined.upload == (if second.upload is Some {
                second.upload
            } else {
                first.upload
            })
            &&& joined.download == (if second.download is Some {
                second.download
            } else {
                first.download
            })
            &&& joined.total == (if second.total is Some {
                second.total
            } else {
                first.total
            })
            &&& joined.expire == (if second.expire is Some {
                second.expire
            } else {
                first.expire
            })
        }),
{
    law_parts_of_joined_texts(a, b, ';');
    let (first, second) = (split_on(a, ';'), split_on(b, ';'));
    lemma_last_amount_joined(first, second, "upload"@);
    lemma_last_amount_joined(first, second, "download"@);
    lemma_last_amount_joined(first, second, "total"@);
    lemma_last_time_joined(first, second, "expire"@);
}

proof fn lemma_last_amount_joined(a: Seq<Seq<char>>, b: Seq<Seq<char>>, key: Seq<char>)
    ensures
        last_amount(a + b, key) == (if last_amount(b, key) is Some {
            last_amount(b, key)
        } else {
            last_amount(a, key)
        }),
    decreases b.len(),
{
    if b.len() == 0 {
        assert(a + b =~= a);
    } else {
        assert((a + b).drop_last() =~= a + b.drop_last());
        lemma_last_amount_joined(a, b.drop_last(), key);
    }
}

proof fn lemma_last_time_joined(a: Seq<Seq<char>>, b: Seq<Seq<char>>, key: Seq<char>)
    ensures
        last_time(a + b, key) == (if last_time(b, key) is Some {
            last_time(b, key)
        } else {
            last_time(a, key)
        }),
    decreases b.len(),
{
    if b.len() == 0 {
        assert(a + b =~= a);
    } else {
        assert((a + b).drop_last() =~= a + b.drop_last());
        lemma_last_time_joined(a, b.drop_last(), key);
    }
}

/// `key=` and a number in decimal.
pub open spec fn written(key: Seq<char>, digits: Seq<char>) -> Seq<char> {
    key + seq!['='] + digits
}

/// A part that is a key without blanks, `=` and digits with a sign or not is read as such.
proof fn lemma_written(key: Seq<char>, digits: Seq<char>)
    requires
        key.len() > 0,
        digits.len() > 0,
        forall|i: int| 0 <= i < key.len() ==> 97 <= #[trigger] key[i] as int <= 122,
        forall|i: int| 0 <= i < digits.len() ==> 45 <= #[trigger] digits[i] as int <= 57,
    ensures
        fields_of(written(key, digits)) == (SubscriptionTraffic {
            upload: if key == "upload"@ {
                read_u64(digits)
            } else {
                None
            },
            download: if key == "download"@ {
                read_u64(digits)
            } else {
                None
            },
            total: if key == "total"@ {
                read_u64(digits)
            } else {
                None
            },
            expire: if key == "expire"@ {
                read_i64(digits)
            } else {
                None
            },
        }),
{
    let none = Seq::<char>::empty();
    let part = written(key, digits);
    assert(none + part + none =~= part);
    assert forall|i: int| 0 <= i < part.len() implies #[trigger] part[i] != ';' by {
        if i < key.len() {
            assert(part[i] == key[i]);
        } else if i > key.len() {
            assert(part[i] == digits[i - key.len() - 1]);
        }
    }
    assert(!key.contains('=')) by {
        if key.contains('=') {
            let i = choose|i: int| 0 <= i < key.len() && key[i] == '=';
            assert(97 <= key[i] as int);
        }
    }
    law_one_part(none, key, digits, none);
    assert(97 <= key[0] as int && 97 <= key[key.len() - 1] as int);
    assert(45 <= digits[0] as int <= 57 && 45 <= digits[digits.len() - 1] as int <= 57);
    assert(trim_start(key) == key);
    assert(trim_start(digits) == digits);
}

/// Reading a header that was written gives back what was written, over the whole range of
/// numbers: each amount from 0 to `u64::MAX`, and a time in either direction.
pub proof fn law_header_reads_back(upload: u64, download: u64, total: u64, expire: i64)
    ensures
        userinfo(written("upload"@, decimal(upload as nat))) == Some(
            (SubscriptionTraffic {
                upload: Some(upload),
                download: None,
                total: None,
                expire: None,
            }),
        ),
        userinfo(written("download"@, decimal(download as nat))) == Some(
            (SubscriptionTraffic {
                upload: None,
                download: Some(download),
                total: None,
                expire: None,
            }),
        ),
        userinfo(written("total"@, decimal(total as nat))) == Some(
            (SubscriptionTraffic { upload: None, download: None, total: Some(total), expire: None }),
        ),
        userinfo(
            written(
                "expire"@,
                if expire < 0 {
                    seq!['-'] + decimal((-expire) as nat)
                } else {
                    decimal(expire as nat)
                },
            ),
        ) == Some(
            (SubscriptionTraffic {
                upload: None,
                download: None,
                total: None,
                expire: Some(expire),
            }),
        ),
        userinfo(
            written("upload"@, decimal(upload as nat)).push(';') + (written(
                "download"@,
                decimal(download as nat),
            ).push(';') + (written("total"@, decimal(total as nat)).push(';') + written(
                "expire"@,
                if expire < 0 {
                    seq!['-'] + decimal((-expire) as nat)
                } else {
                    decimal(expire as nat)
                },
            ))),
        ) == Some(
            (SubscriptionTraffic {
                upload: Some(upload),
                download: Some(download),
                total: Some(total),
                expire: Some(expire),
            }),
        ),
{
    lemma_keys_differ();
    reveal_strlit("upload");
    reveal_strlit("download");
    reveal_strlit("total");
    reveal_strlit("expire");
    let sent = if expire < 0 {
        seq!['-'] + decimal((-expire) as nat)
    } else {
        decimal(expire as nat)
    };
    lemma_amount_digits(upload);
    lemma_amount_digits(download);
    lemma_amount_digits(total);
    let size = (if expire < 0 {
        -expire
    } else {
        expire as int
    }) as nat;
    law_writing(size);
    law_reading_signed(decimal(size));
    assert forall|i: int| 0 <= i < sent.len() implies 45 <= #[trigger] sent[i] as int <= 57 by {
        if expire < 0 {
            if i > 0 {
                assert(sent[i] == decimal(size)[i - 1]);
            }
        } else {
            assert(sent[i] == decimal(size)[i]);
        }
    }
    assert(read_i64(sent) == Some(expire));
    let a = written("upload"@, decimal(upload as nat));
    let b = written("download"@, decimal(download as nat));
    let c = written("total"@, decimal(total as nat));
    let d = written("expire"@, sent);
    lemma_written("upload"@, decimal(upload as nat));
    lemma_written("download"@, decimal(download as nat));
    lemma_written("total"@, decimal(total as nat));
    lemma_written("expire"@, sent);
    law_joined_headers(c, d);
    law_joined_headers(b, c.push(';') + d);
    law_joined_headers(a, b.push(';') + (c.push(';') + d));
}

proof fn lemma_amount_digits(n: u64)
    ensures
        decimal(n as nat).len() > 0,
        forall|i: int|
            0 <= i < decimal(n as nat).len() ==> 45 <= #[trigger] decimal(n as nat)[i] as int
                <= 57,
        read_u64(decimal(n as nat)) == Some(n),
{
    law_writing(n as nat);
    law_reading_unsigned(decimal(n as nat));
    assert forall|i: int| 0 <= i < decimal(n as nat).len() implies 45 <= #[trigger] decimal(
        n as nat,
    )[i] as int <= 57 by {
        assert(48 <= decimal(n as nat)[i] as int <= 57);
    }
}

/// A size is shown in hundredths: the whole part, a point, two digits and the unit.
pub proof fn law_size_is_shown(bytes: u64)
    ensures
        ({
            let hundredths = hundredths_of_gib(bytes as nat);
            let rest = hundredths % 100;
            gib_text(bytes) == decimal(hundredths / 100) + "."@ + decimal(rest / 10) + decimal(
                rest % 10,
            ) + "GB"@
        }),
{
    let rest = hundredths_of_gib(bytes as nat) % 100;
    law_padding(rest, 2);
    if rest < 10 {
        assert(decimal(rest).len() == 1);
        assert(padded(rest, 2) =~= decimal(0) + decimal(rest));
    } else {
        assert(decimal(rest / 10).len() == 1);
        assert(padded(rest, 2) =~= decimal(rest / 10) + decimal(rest % 10));
    }
    assert(decimal(hundredths_of_gib(bytes as nat) / 100) + "."@ + padded(rest, 2) =~= decimal(
        hundredths_of_gib(bytes as nat) / 100,
    ) + "."@ + decimal(rest / 10) + decimal(rest % 10));
}

/// A label starts with the whole name of the airport, and nothing behind it depends on that name.
/// When the traffic expires is said behind everything else, and changes nothing before it.
pub proof fn law_label_in_parts(airport: Seq<char>, traffic: SubscriptionTraffic)
    ensures
        traffic_label(airport, traffic) == airport + traffic_label(Seq::empty(), traffic),
        traffic.expire matches Some(ts) ==> traffic_label(airport, traffic) == traffic_label(
            airport,
            SubscriptionTraffic { expire: None, ..traffic },
        ) + " | 到期 "@ + expire_text(ts),
{
    let none = Seq::<char>::empty();
    let usage = " | "@ + usage_text(traffic);
    assert(airport + " | "@ + usage_text(traffic) =~= airport + usage);
    assert(none + " | "@ + usage_text(traffic) =~= usage);
    if let Some(ts) = traffic.expire {
        assert(traffic_label(airport, traffic) =~= airport + traffic_label(none, traffic));
    }
}

/// What a label says of the usage: upload and download together, as far as a number can hold them,
/// of the total and in percent of it; without a number where the total is 0; and what is used
/// alone where it is not known. An amount that is not known counts as 0.
pub proof fn law_label_of_usage(airport: Seq<char>, upload: u64, download: u64, total: u64)
    ensures
        ({
            let used = (if upload + download <= u64::MAX {
                upload + download
            } else {
                u64::MAX as int
            }) as u64;
            let amounts = SubscriptionTraffic {
                upload: Some(upload),
                download: Some(download),
                total: None,
                expire: None,
            };
            let nothing = SubscriptionTraffic {
                upload: None,
                download: None,
                total: None,
                expire: None,
            };
            &&& traffic_label(airport, amounts) == airport + " | "@ + (gib_text(used) + " used"@)
            &&& traffic_label(
                airport,
                SubscriptionTraffic { download: None, ..amounts },
            ) == airport + " | "@ + (gib_text(upload) + " used"@)
            &&& traffic_label(
                airport,
                SubscriptionTraffic { upload: None, ..amounts },
            ) == airport + " | "@ + (gib_text(download) + " used"@)
            &&& traffic_label(airport, nothing) == airport + " | "@ + "流量未知"@
            &&& total > 0 ==> traffic_label(
                airport,
                SubscriptionTraffic { total: Some(total), ..amounts },
            ) == airport + " | "@ + (gib_text(used) + "/"@ + gib_text(total) + " ("@ + decimal(
                percent(used as nat, total as nat),
            ) + "%)"@)
            &&& traffic_label(
                airport,
                SubscriptionTraffic { total: Some(0), ..amounts },
            ) == airport + " | "@ + (gib_text(used) + "/?"@)
            &&& traffic_label(
                airport,
                SubscriptionTraffic { total: Some(total), download: None, ..amounts },
            ) == traffic_label(
                airport,
                SubscriptionTraffic { total: Some(total), download: Some(0), ..amounts },
            )
            &&& traffic_label(
                airport,
                SubscriptionTraffic { total: Some(total), upload: None, ..amounts },
            ) == traffic_label(
                airport,
                SubscriptionTraffic { total: Some(total), upload: Some(0), ..amounts },
            )
            &&& traffic_label(airport, SubscriptionTraffic { total: Some(total), ..nothing })
                == traffic_label(
                airport,
                SubscriptionTraffic {
                    upload: Some(0),
                    download: Some(0),
                    total: Some(total),
                    expire: None,
                },
            )
        }),
{
}

} // verus!
