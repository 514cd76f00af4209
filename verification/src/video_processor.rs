//! Sampling pools of clips and the filter plan that merges clips of
//! differing geometry.

use crate::decimal::{
    digits_of, fixed6, is_digit, lemma_digits_injective, lemma_digits_of, push_decimal, push_fixed6,
};
use crate::random::{pick_between, shuffle};
use vstd::multiset::Multiset;
use vstd::prelude::*;

verus! {

/// What a probe reports of one video. The duration is in microseconds; a
/// value of zero or below means that it could not be determined.
#[derive(Debug)]
pub struct VideoInfo {
    pub codec: String,
    pub width: u32,
    pub height: u32,
    pub fps: String,
    pub duration_micros: i64,
    pub has_audio: bool,
}

/// Why no filter plan was produced.
#[derive(Clone, Copy, Debug, PartialEq, Eq, Structural)]
pub enum PlanError {
    /// The input at `index` has no audio track, and no known duration to
    /// which a silent track could be cut.
    MissingDurationForSilence { index: usize },
}

/// The input needs a silent track but gives no length for it.
pub open spec fn lacks_duration(info: VideoInfo) -> bool {
    !info.has_audio && info.duration_micros <= 0
}

/// Scales input `idx` into the target frame, pads it to fill the frame,
/// and resets its aspect ratio, pixel format and timestamps.
pub open spec fn video_fragment(idx: nat, width: nat, height: nat) -> Seq<char> {
    "["@ + digits_of(idx) + ":v]scale="@ + digits_of(width) + ":"@ + digits_of(height)
        + ":force_original_aspect_ratio=decrease,pad="@ + digits_of(width) + ":"@ + digits_of(
        height,
    ) + ":(ow-iw)/2:(oh-ih)/2,setsar=1,format=yuv420p,setpts=PTS-STARTPTS[v"@ + digits_of(idx)
        + "]"@
}

/// Resamples the audio of input `idx` to the common rate and layout.
pub open spec fn audio_fragment(idx: nat) -> Seq<char> {
    "["@ + digits_of(idx)
        + ":a]aresample=async=1:first_pts=0,aformat=sample_rates=48000:channel_layouts=stereo,asetpts=PTS-STARTPTS[a"@
        + digits_of(idx) + "]"@
}

/// Synthesizes a silent stereo track of the given length for input `idx`.
pub open spec fn silence_fragment(idx: nat, duration_micros: nat) -> Seq<char> {
    "anullsrc=channel_layout=stereo:sample_rate=48000,atrim=duration="@ + fixed6(duration_micros)
        + ",asetpts=PTS-STARTPTS[a"@ + digits_of(idx) + "]"@
}

/// The audio fragment of one input: resampled where it has a track, silence
/// of its own length where it has none.
pub open spec fn sound_fragment(info: VideoInfo, idx: nat) -> Seq<char> {
    if info.has_audio {
        audio_fragment(idx)
    } else {
        silence_fragment(idx, info.duration_micros as nat)
    }
}

/// The fragments of the first `k` inputs, each followed by `;`.
pub open spec fn input_fragments(
    videos: Seq<(String, VideoInfo)>,
    k: nat,
    width: nat,
    height: nat,
) -> Seq<char>
    decreases k,
{
    if k == 0 {
        Seq::empty()
    } else {
        input_fragments(videos, (k - 1) as nat, width, height) + video_fragment(
            (k - 1) as nat,
            width,
            height,
        ) + ";"@ + sound_fragment(videos[k - 1].1, (k - 1) as nat) + ";"@
    }
}

/// The video and audio labels of the first `k` inputs, in order.
pub open spec fn stream_labels(k: nat) -> Seq<char>
    decreases k,
{
    if k == 0 {
        Seq::empty()
    } else {
        stream_labels((k - 1) as nat) + "[v"@ + digits_of((k - 1) as nat) + "][a"@ + digits_of(
            (k - 1) as nat,
        ) + "]"@
    }
}

/// Joins `n` labelled inputs into one video and one audio output.
pub open spec fn merge_fragment(n: nat) -> Seq<char> {
    stream_labels(n) + "concat=n="@ + digits_of(n) + ":v=1:a=1[outv][outa]"@
}

/// The whole plan: every input's fragments, then the merge.
pub open spec fn concat_filter_of(videos: Seq<(String, VideoInfo)>, width: nat, height: nat) -> Seq<
    char,
> {
    input_fragments(videos, videos.len(), width, height) + merge_fragment(videos.len())
}

/// `index` is the first input that needs silence of unknown length.
pub open spec fn first_lacking(videos: Seq<(String, VideoInfo)>, index: int) -> bool {
    &&& 0 <= index < videos.len()
    &&& lacks_duration(videos[index].1)
    &&& forall|i: int| 0 <= i < index ==> !lacks_duration(#[trigger] videos[i].1)
}

fn push_scale(plan: &mut String, width: u64, height: u64)
    ensures
        final(plan)@ == old(plan)@ + (digits_of(width as nat) + ":"@ + digits_of(height as nat)),
{
    push_decimal(plan, width);
    plan.append(":");
    push_decimal(plan, height);
    assert(plan@ =~= old(plan)@ + (digits_of(width as nat) + ":"@ + digits_of(height as nat)));
}

fn push_video_fragment(plan: &mut String, idx: u64, width: u64, height: u64)
    ensures
        final(plan)@ == old(plan)@ + video_fragment(idx as nat, width as nat, height as nat),
{
    let ghost size = digits_of(width as nat) + ":"@ + digits_of(height as nat);
    plan.append("[");
    push_decimal(plan, idx);
    plan.append(":v]scale=");
    assert(plan@ =~= old(plan)@ + ("["@ + digits_of(idx as nat) + ":v]scale="@));
    push_scale(plan, width, height);
    plan.append(":force_original_aspect_ratio=decrease,pad=");
    let ghost first = "["@ + digits_of(idx as nat) + ":v]scale="@ + size
        + ":force_original_aspect_ratio=decrease,pad="@;
    assert(plan@ =~= old(plan)@ + first);
    push_scale(plan, width, height);
    plan.append(":(ow-iw)/2:(oh-ih)/2,setsar=1,format=yuv420p,setpts=PTS-STARTPTS[v");
    let ghost second = first + size
        + ":(ow-iw)/2:(oh-ih)/2,setsar=1,format=yuv420p,setpts=PTS-STARTPTS[v"@;
    assert(plan@ =~= old(plan)@ + second);
    push_decimal(plan, idx);
    plan.append("]");
    assert(plan@ =~= old(plan)@ + (second + digits_of(idx as nat) + "]"@));
    assert(second + digits_of(idx as nat) + "]"@ =~= video_fragment(
        idx as nat,
        width as nat,
        height as nat,
    ));
}

fn push_audio_fragment(plan: &mut String, idx: u64)
    ensures
        final(plan)@ == old(plan)@ + audio_fragment(idx as nat),
{
    plan.append("[");
    push_decimal(plan, idx);
    plan.append(
        ":a]aresample=async=1:first_pts=0,aformat=sample_rates=48000:channel_layouts=stereo,asetpts=PTS-STARTPTS[a",
    );
    push_decimal(plan, idx);
    plan.append("]");
    assert(plan@ =~= old(plan)@ + audio_fragment(idx as nat));
}

fn push_silence_fragment(plan: &mut String, idx: u64, duration_micros: u64)
    ensures
        final(plan)@ == old(plan)@ + silence_fragment(idx as nat, duration_micros as nat),
{
    plan.append("anullsrc=channel_layout=stereo:sample_rate=48000,atrim=duration=");
    push_fixed6(plan, duration_micros);
    plan.append(",asetpts=PTS-STARTPTS[a");
    push_decimal(plan, idx);
    plan.append("]");
    assert(plan@ =~= old(plan)@ + silence_fragment(idx as nat, duration_micros as nat));
}

fn push_stream_labels(plan: &mut String, n: usize)
    ensures
        final(plan)@ == old(plan)@ + stream_labels(n as nat),
{
    let mut k: usize = 0;
    assert(plan@ =~= old(plan)@ + stream_labels(0));
    while k < n
        invariant
            k <= n,
            plan@ == old(plan)@ + stream_labels(k as nat),
        decreases n - k,
    {
        plan.append("[v");
        push_decimal(plan, k as u64);
        plan.append("][a");
        push_decimal(plan, k as u64);
        plan.append("]");
        assert(plan@ =~= old(plan)@ + stream_labels((k + 1) as nat));
        k += 1;
    }
}

/// Builds the filter plan that normalizes every input to the target frame
/// size and a common audio format, and merges them in order.
pub fn build_concat_filter(
    videos_info: &Vec<(String, VideoInfo)>,
    target_width: u32,
    target_height: u32,
) -> (result: Result<String, PlanError>)
    ensures
        match result {
            Ok(plan) => {
                &&& forall|i: int|
                    0 <= i < videos_info@.len() ==> !lacks_duration(#[trigger] videos_info@[i].1)
                &&& plan@ == concat_filter_of(
                    videos_info@,
                    target_width as nat,
                    target_height as nat,
                )
            },
            Err(e) => exists|index: int|
                first_lacking(videos_info@, index) && e == (PlanError::MissingDurationForSilence {
                    index: index as usize,
                }),
        },
{
    let n: usize = videos_info.len();
    let w: u64 = target_width as u64;
    let h: u64 = target_height as u64;
    let mut plan = String::new();
    let mut idx: usize = 0;
    assert(plan@ =~= input_fragments(videos_info@, 0, w as nat, h as nat));
    while idx < n
        invariant
            idx <= n,
            n == videos_info@.len(),
            forall|i: int| 0 <= i < idx ==> !lacks_duration(#[trigger] videos_info@[i].1),
            plan@ == input_fragments(videos_info@, idx as nat, w as nat, h as nat),
        decreases n - idx,
    {
        let ghost before = plan@;
        let info = &videos_info[idx].1;
        push_video_fragment(&mut plan, idx as u64, w, h);
        plan.append(";");
        if info.has_audio {
            push_audio_fragment(&mut plan, idx as u64);
        } else {
            if info.duration_micros <= 0 {
                assert(first_lacking(videos_info@, idx as int));
                return Err(PlanError::MissingDurationForSilence { index: idx });
            }
            push_silence_fragment(&mut plan, idx as u64, info.duration_micros as u64);
        }
        plan.append(";");
        assert(plan@ =~= before + video_fragment(idx as nat, w as nat, h as nat) + ";"@
            + sound_fragment(*info, idx as nat) + ";"@);
        idx += 1;
    }
    let ghost inputs = plan@;
    push_stream_labels(&mut plan, n);
    plan.append("concat=n=");
    push_decimal(&mut plan, n as u64);
    plan.append(":v=1:a=1[outv][outa]");
    assert(plan@ =~= inputs + merge_fragment(n as nat));
    Ok(plan)
}

/// The texts of a list of paths.
pub open spec fn path_views(paths: Seq<String>) -> Seq<Seq<char>> {
    paths.map_values(|p: String| p@)
}

/// The model of one pool: every known clip, and those not yet drawn in the
/// current cycle.
pub struct PoolView {
    pub all: Seq<Seq<char>>,
    pub remaining: Seq<Seq<char>>,
}

/// Every remaining clip is a known clip, counted as often as it occurs.
pub open spec fn view_wf(pool: PoolView) -> bool {
    pool.remaining.to_multiset().subset_of(pool.all.to_multiset())
}

/// What a draw takes from: the remaining clips, or all of them once none
/// remains.
pub open spec fn stock_of(pool: PoolView) -> Seq<Seq<char>> {
    if pool.remaining.len() == 0 {
        pool.all
    } else {
        pool.remaining
    }
}

/// How many clips a draw of `count` hands out.
pub open spec fn drawn_count(pool: PoolView, count: usize) -> int {
    if count <= stock_of(pool).len() {
        count as int
    } else {
        stock_of(pool).len() as int
    }
}

/// What a pool has handed out in the current cycle: the known clips that no
/// longer remain.
pub open spec fn handed_out(pool: PoolView) -> Multiset<Seq<char>> {
    pool.all.to_multiset().sub(pool.remaining.to_multiset())
}

/// Draws are without replacement. A draw that leaves the pool with the
/// clips it did not take, out of what was in stock, adds its clips to those
/// handed out before in the cycle; a draw from a used-up pool starts a new
/// cycle. Either way all that was handed out in the cycle stays within the
/// known clips, so no clip comes twice before every clip has come once.
pub proof fn lemma_draw_without_replacement(before: PoolView, after: PoolView, drawn: Seq<Seq<char>>)
    requires
        view_wf(before),
        after.all == before.all,
        drawn.to_multiset().add(after.remaining.to_multiset()) == stock_of(before).to_multiset(),
    ensures
        view_wf(after),
        before.remaining.len() > 0 ==> handed_out(after) == handed_out(before).add(
            drawn.to_multiset(),
        ),
        before.remaining.len() == 0 ==> handed_out(after) == drawn.to_multiset(),
        handed_out(after).subset_of(after.all.to_multiset()),
        drawn.to_multiset().subset_of(stock_of(before).to_multiset()),
{
    let all = before.all.to_multiset();
    let left = after.remaining.to_multiset();
    let taken = drawn.to_multiset();
    let stock = stock_of(before).to_multiset();
    assert forall|v: Seq<char>| taken.count(v) + left.count(v) == stock.count(v) by {
        assert(taken.add(left).count(v) == stock.count(v));
    }
    assert forall|v: Seq<char>| stock.count(v) <= all.count(v) by {
        if before.remaining.len() > 0 {
            assert(before.remaining.to_multiset().count(v) <= all.count(v));
        }
    }
    assert(left.subset_of(all)) by {
        assert forall|v: Seq<char>| left.count(v) <= all.count(v) by {
            assert(taken.count(v) + left.count(v) == stock.count(v));
            assert(stock.count(v) <= all.count(v));
        }
    }
    assert(taken.subset_of(stock)) by {
        assert forall|v: Seq<char>| taken.count(v) <= stock.count(v) by {
            assert(taken.count(v) + left.count(v) == stock.count(v));
        }
    }
    if before.remaining.len() > 0 {
        assert(handed_out(after) =~= handed_out(before).add(taken)) by {
            assert forall|v: Seq<char>|
                handed_out(after).count(v) == handed_out(before).add(taken).count(v) by {
                assert(taken.count(v) + left.count(v) == stock.count(v));
                assert(stock.count(v) <= all.count(v));
            }
        }
    } else {
        assert(handed_out(after) =~= taken) by {
            assert forall|v: Seq<char>| handed_out(after).count(v) == taken.count(v) by {
                assert(taken.count(v) + left.count(v) == stock.count(v));
            }
        }
    }
    assert(handed_out(after).subset_of(all)) by {
        assert forall|v: Seq<char>| handed_out(after).count(v) <= all.count(v) by {}
    }
}

/// Lists that hold the same paths equally often hold the same texts equally
/// often.
pub proof fn lemma_views_permuted(a: Seq<String>, b: Seq<String>)
    requires
        a.to_multiset() == b.to_multiset(),
    ensures
        path_views(a).to_multiset() == path_views(b).to_multiset(),
    decreases a.len(),
{
    broadcast use vstd::seq_lib::group_to_multiset_ensures;

    vstd::seq_lib::to_multiset_len(a);
    vstd::seq_lib::to_multiset_len(b);
    if a.len() == 0 {
        assert(b.len() == 0);
        assert(path_views(a) =~= path_views(b));
    } else {
        let x = a.last();
        let a1 = a.drop_last();
        assert(a =~= a1.push(x));
        assert(b.to_multiset().count(x) > 0);
        assert(b.contains(x));
        let i = choose|i: int| 0 <= i < b.len() && b[i] == x;
        let b1 = b.remove(i);
        assert(a1.to_multiset() =~= b1.to_multiset());
        lemma_views_permuted(a1, b1);
        assert(path_views(a) =~= path_views(a1).push(x@));
        assert(path_views(b1) =~= path_views(b).remove(i));
        assert(path_views(b)[i] == x@);
        assert(path_views(b).to_multiset() =~= path_views(b1).to_multiset().insert(x@));
        assert(path_views(a).to_multiset() =~= path_views(b).to_multiset());
    }
}

/// A list cut in two holds what its two parts hold.
pub proof fn lemma_views_split(paths: Seq<String>, k: int)
    requires
        0 <= k <= paths.len(),
    ensures
        path_views(paths.subrange(0, k)).to_multiset().add(
            path_views(paths.subrange(k, paths.len() as int)).to_multiset(),
        ) == path_views(paths).to_multiset(),
{
    let front = path_views(paths.subrange(0, k));
    let back = path_views(paths.subrange(k, paths.len() as int));
    assert(front + back =~= path_views(paths));
    vstd::seq_lib::lemma_multiset_commutative(front, back);
}

/// The sampling state of one directory.
#[derive(Debug)]
pub struct VideoPoolState {
    pub all_videos: Vec<String>,
    pub remaining_videos: Vec<String>,
}

impl View for VideoPoolState {
    type V = PoolView;

    open spec fn view(&self) -> PoolView {
        PoolView {
            all: path_views(self.all_videos@),
            remaining: path_views(self.remaining_videos@),
        }
    }
}

/// Copies a list of paths.
pub fn clone_paths(paths: &Vec<String>) -> (copy: Vec<String>)
    ensures
        copy@ == paths@,
{
    let mut copy: Vec<String> = Vec::new();
    let mut i: usize = 0;
    while i < paths.len()
        invariant
            i <= paths.len(),
            copy@ == paths@.subrange(0, i as int),
        decreases paths.len() - i,
    {
        copy.push(paths[i].clone());
        assert(copy@ =~= paths@.subrange(0, i + 1));
        i += 1;
    }
    assert(copy@ =~= paths@);
    copy
}

impl Clone for VideoPoolState {
    fn clone(&self) -> (copy: Self)
        ensures
            copy.all_videos@ == self.all_videos@,
            copy.remaining_videos@ == self.remaining_videos@,
    {
        let all_videos = clone_paths(&self.all_videos);
        let remaining_videos = clone_paths(&self.remaining_videos);
        VideoPoolState { all_videos, remaining_videos }
    }
}

/// Why a draw handed out nothing.
#[derive(Clone, Copy, Debug, PartialEq, Eq, Structural)]
pub enum PoolError {
    /// No pool was created for the directory and depth.
    PoolNotInitialized,
}

impl VideoPoolState {
    /// Every remaining clip is a known clip.
    pub open spec fn wf(&self) -> bool {
        view_wf(self@)
    }

    /// A full pool over the given clips.
    pub fn new(all_videos: Vec<String>) -> (pool: Self)
        ensures
            pool.wf(),
            pool@.all == path_views(all_videos@),
            pool@.remaining == path_views(all_videos@),
    {
        let remaining_videos = clone_paths(&all_videos);
        VideoPoolState { all_videos, remaining_videos }
    }

    /// Makes every known clip available again once none remains.
    pub fn refill_if_empty(&mut self)
        requires
            old(self).wf(),
        ensures
            final(self).wf(),
            final(self)@.all == old(self)@.all,
            final(self)@.remaining == stock_of(old(self)@),
    {
        if self.remaining_videos.is_empty() {
            self.remaining_videos = clone_paths(&self.all_videos);
        }
    }

    /// Removes and returns the first `count` remaining clips, or all of them
    /// where fewer remain.
    pub fn take_front(&mut self, count: usize) -> (drawn: Vec<String>)
        requires
            old(self).wf(),
        ensures
            final(self).wf(),
            final(self)@.all == old(self)@.all,
            count <= old(self)@.remaining.len() ==> path_views(drawn@) == old(
                self,
            )@.remaining.subrange(0, count as int) && final(self)@.remaining == old(
                self,
            )@.remaining.subrange(count as int, old(self)@.remaining.len() as int),
            count > old(self)@.remaining.len() ==> path_views(drawn@) == old(self)@.remaining
                && final(self)@.remaining.len() == 0,
    {
        let ghost before = self.remaining_videos@;
        let actual: usize = if count <= self.remaining_videos.len() {
            count
        } else {
            self.remaining_videos.len()
        };
        let rest = self.remaining_videos.split_off(actual);
        let mut drawn = rest;
        std::mem::swap(&mut drawn, &mut self.remaining_videos);
        proof {
            lemma_views_split(before, actual as int);
            assert(path_views(drawn@) =~= path_views(before).subrange(0, actual as int));
            assert(path_views(self.remaining_videos@) =~= path_views(before).subrange(
                actual as int,
                before.len() as int,
            ));
            if count > before.len() {
                assert(path_views(drawn@) =~= path_views(before));
            }
        }
        drawn
    }

    /// Draws up to `count` clips without replacement, in random order. A pool
    /// with nothing remaining is refilled first.
    pub fn draw(&mut self, count: usize) -> (drawn: Vec<String>)
        requires
            old(self).wf(),
        ensures
            final(self).wf(),
            final(self)@.all == old(self)@.all,
            drawn@.len() == drawn_count(old(self)@, count),
            path_views(drawn@).to_multiset().add(final(self)@.remaining.to_multiset()) == stock_of(
                old(self)@,
            ).to_multiset(),
    {
        self.refill_if_empty();
        let ghost stock = self.remaining_videos@;
        shuffle(&mut self.remaining_videos);
        let ghost shuffled = self.remaining_videos@;
        proof {
            lemma_views_permuted(shuffled, stock);
            vstd::seq_lib::to_multiset_len(shuffled);
            vstd::seq_lib::to_multiset_len(stock);
        }
        let drawn = self.take_front(count);
        proof {
            let k = drawn_count(old(self)@, count);
            let n = shuffled.len() as int;
            let texts = path_views(shuffled);
            assert(path_views(stock) == stock_of(old(self)@));
            assert(n == stock.len());
            lemma_views_split(shuffled, k);
            assert(texts.subrange(0, k) =~= path_views(shuffled.subrange(0, k)));
            assert(texts.subrange(k, n) =~= path_views(shuffled.subrange(k, n)));
            if count > n {
                assert(texts.subrange(0, n) =~= texts);
                assert(self@.remaining =~= texts.subrange(n, n));
            }
            assert(path_views(drawn@) == texts.subrange(0, k));
            assert(self@.remaining == texts.subrange(k, n));
            assert(path_views(drawn@).to_multiset().add(self@.remaining.to_multiset())
                == texts.to_multiset());
        }
        drawn
    }
}

/// A pool is known by its directory and the depth to which it was scanned.
pub type PoolKey = (Seq<char>, usize);

/// The key of a pool written as text: the directory, two colons, and the
/// depth in decimal.
pub open spec fn key_text(dir: Seq<char>, max_depth: usize) -> Seq<char> {
    dir + "::"@ + digits_of(max_depth as nat)
}

/// The text of a key names one pool only: keys of equal text have the same
/// directory and the same depth, even where a directory holds colons.
pub proof fn lemma_key_text_injective(dir1: Seq<char>, depth1: usize, dir2: Seq<char>, depth2: usize)
    requires
        key_text(dir1, depth1) == key_text(dir2, depth2),
    ensures
        dir1 == dir2,
        depth1 == depth2,
{
    reveal_strlit("::");
    let sep = "::"@;
    assert(sep.len() == 2 && sep[1] == ':');
    let tail1 = digits_of(depth1 as nat);
    let tail2 = digits_of(depth2 as nat);
    lemma_digits_of(depth1 as nat);
    lemma_digits_of(depth2 as nat);
    let key = key_text(dir1, depth1);
    assert(key.len() == dir1.len() + 2 + tail1.len());
    assert(key.len() == dir2.len() + 2 + tail2.len());
    if dir1.len() < dir2.len() {
        let i = dir2.len() as int + 1;
        assert(key_text(dir2, depth2)[i] == sep[1]);
        assert(key_text(dir1, depth1)[i] == tail1[i - dir1.len() - 2]);
        assert(is_digit(tail1[i - dir1.len() - 2]));
        assert(false);
    }
    if dir2.len() < dir1.len() {
        let i = dir1.len() as int + 1;
        assert(key_text(dir1, depth1)[i] == sep[1]);
        assert(key_text(dir2, depth2)[i] == tail2[i - dir2.len() - 2]);
        assert(is_digit(tail2[i - dir2.len() - 2]));
        assert(false);
    }
    assert(dir1 =~= key.subrange(0, dir1.len() as int));
    assert(dir2 =~= key.subrange(0, dir2.len() as int));
    assert(tail1 =~= key.subrange(dir1.len() as int + 2, key.len() as int));
    assert(tail2 =~= key.subrange(dir2.len() as int + 2, key.len() as int));
    lemma_digits_injective(depth1 as nat, depth2 as nat);
}

struct PoolEntry {
    dir: String,
    max_depth: usize,
    state: VideoPoolState,
}

spec fn entry_key(entry: PoolEntry) -> PoolKey {
    (entry.dir@, entry.max_depth)
}

spec fn distinct_keys(entries: Seq<PoolEntry>) -> bool {
    forall|i: int, j: int|
        0 <= i < j < entries.len() ==> entry_key(#[trigger] entries[i]) != entry_key(
            #[trigger] entries[j],
        )
}

spec fn model_of(entries: Seq<PoolEntry>) -> Map<PoolKey, PoolView>
    decreases entries.len(),
{
    if entries.len() == 0 {
        Map::empty()
    } else {
        model_of(entries.drop_last()).insert(entry_key(entries.last()), entries.last().state@)
    }
}

spec fn has_key(entries: Seq<PoolEntry>, key: PoolKey) -> bool {
    exists|i: int| 0 <= i < entries.len() && entry_key(#[trigger] entries[i]) == key
}

proof fn lemma_model_keys(entries: Seq<PoolEntry>)
    ensures
        forall|key: PoolKey| #[trigger]
            model_of(entries).dom().contains(key) <==> has_key(entries, key),
    decreases entries.len(),
{
    if entries.len() > 0 {
        let front = entries.drop_last();
        lemma_model_keys(front);
        assert forall|key: PoolKey| #[trigger]
            model_of(entries).dom().contains(key) <==> has_key(entries, key) by {
            assert(model_of(front).dom().contains(key) <==> has_key(front, key));
            if model_of(entries).dom().contains(key) {
                if entry_key(entries.last()) == key {
                    assert(entry_key(entries[entries.len() - 1]) == key);
                } else {
                    assert(model_of(front).dom().contains(key));
                    let i = choose|i: int|
                        0 <= i < front.len() && entry_key(#[trigger] front[i]) == key;
                    assert(entry_key(entries[i]) == key);
                }
            }
            if has_key(entries, key) {
                let i = choose|i: int|
                    0 <= i < entries.len() && entry_key(#[trigger] entries[i]) == key;
                if i < front.len() {
                    assert(entry_key(front[i]) == key);
                    assert(has_key(front, key));
                }
            }
        }
    }
}

proof fn lemma_model_values(entries: Seq<PoolEntry>, i: int)
    requires
        distinct_keys(entries),
        0 <= i < entries.len(),
    ensures
        model_of(entries).dom().contains(entry_key(entries[i])),
        model_of(entries)[entry_key(entries[i])] == entries[i].state@,
    decreases entries.len(),
{
    let front = entries.drop_last();
    if i < entries.len() - 1 {
        assert(distinct_keys(front)) by {
            assert forall|a: int, b: int| 0 <= a < b < front.len() implies entry_key(
                #[trigger] front[a],
            ) != entry_key(#[trigger] front[b]) by {
                assert(front[a] == entries[a] && front[b] == entries[b]);
            }
        }
        lemma_model_values(front, i);
        assert(front[i] == entries[i]);
        assert(entry_key(entries[i]) != entry_key(entries[entries.len() - 1]));
    }
}

/// Replacing the state of entry `i` replaces the value under its key.
proof fn lemma_model_update(entries: Seq<PoolEntry>, i: int, entry: PoolEntry)
    requires
        distinct_keys(entries),
        0 <= i < entries.len(),
        entry_key(entry) == entry_key(entries[i]),
    ensures
        distinct_keys(entries.update(i, entry)),
        model_of(entries.update(i, entry)) == model_of(entries).insert(
            entry_key(entry),
            entry.state@,
        ),
{
    let updated = entries.update(i, entry);
    assert(distinct_keys(updated)) by {
        assert forall|a: int, b: int| 0 <= a < b < updated.len() implies entry_key(
            #[trigger] updated[a],
        ) != entry_key(#[trigger] updated[b]) by {
            assert(entry_key(updated[a]) == entry_key(entries[a]));
            assert(entry_key(updated[b]) == entry_key(entries[b]));
        }
    }
    lemma_model_keys(entries);
    lemma_model_keys(updated);
    let left = model_of(updated);
    let right = model_of(entries).insert(entry_key(entry), entry.state@);
    assert forall|key: PoolKey| left.dom().contains(key) <==> right.dom().contains(key) by {
        assert(left.dom().contains(key) <==> has_key(updated, key));
        assert(model_of(entries).dom().contains(key) <==> has_key(entries, key));
        if has_key(updated, key) {
            let j = choose|j: int| 0 <= j < updated.len() && entry_key(#[trigger] updated[j]) == key;
            assert(entry_key(entries[j]) == key);
        }
        if has_key(entries, key) {
            let j = choose|j: int| 0 <= j < entries.len() && entry_key(#[trigger] entries[j]) == key;
            assert(entry_key(updated[j]) == key);
        }
        if key == entry_key(entry) {
            assert(entry_key(updated[i]) == key);
        }
    }
    assert forall|key: PoolKey| left.dom().contains(key) implies left[key] == right[key] by {
        assert(has_key(updated, key));
        let j = choose|j: int| 0 <= j < updated.len() && entry_key(#[trigger] updated[j]) == key;
        lemma_model_values(updated, j);
        lemma_model_values(entries, j);
        if j != i {
            assert(updated[j] == entries[j]);
            assert(entry_key(entries[j]) != entry_key(entries[i]));
        }
    }
    assert(left =~= right);
}

/// The sampling pools of a process, one for each directory and depth.
pub struct VideoPoolManager {
    pools: Vec<PoolEntry>,
}

impl View for VideoPoolManager {
    type V = Map<PoolKey, PoolView>;

    closed spec fn view(&self) -> Map<PoolKey, PoolView> {
        model_of(self.pools@)
    }
}

impl VideoPoolManager {
    /// No two pools share a key, and each pool is well formed.
    pub closed spec fn wf(&self) -> bool {
        &&& distinct_keys(self.pools@)
        &&& forall|i: int| 0 <= i < self.pools@.len() ==> (#[trigger] self.pools@[i]).state.wf()
    }

    /// In every pool of a well-formed manager, the remaining clips are known
    /// clips.
    pub proof fn lemma_pools_wf(&self)
        requires
            self.wf(),
        ensures
            forall|key: PoolKey| self@.dom().contains(key) ==> view_wf(#[trigger] self@[key]),
    {
        lemma_model_keys(self.pools@);
        assert forall|key: PoolKey| self@.dom().contains(key) implies view_wf(
            #[trigger] self@[key],
        ) by {
            assert(has_key(self.pools@, key));
            let i = choose|i: int|
                0 <= i < self.pools@.len() && entry_key(#[trigger] self.pools@[i]) == key;
            lemma_model_values(self.pools@, i);
            assert(self.pools@[i].state.wf());
        }
    }

    /// A manager without pools.
    pub fn new() -> (manager: Self)
        ensures
            manager.wf(),
            manager@ == Map::<PoolKey, PoolView>::empty(),
    {
        VideoPoolManager { pools: Vec::new() }
    }

    fn find(&self, dir: &String, max_depth: usize) -> (found: Option<usize>)
        requires
            self.wf(),
        ensures
            match found {
                Some(i) => i < self.pools@.len() && entry_key(self.pools@[i as int]) == (
                    dir@,
                    max_depth,
                ),
                None => !self@.dom().contains((dir@, max_depth)),
            },
    {
        let mut i: usize = 0;
        while i < self.pools.len()
            invariant
                i <= self.pools@.len(),
                forall|j: int| 0 <= j < i ==> entry_key(#[trigger] self.pools@[j]) != (dir@, max_depth),
            decreases self.pools.len() - i,
        {
            if self.pools[i].max_depth == max_depth && self.pools[i].dir == *dir {
                return Some(i);
            }
            i += 1;
        }
        proof {
            lemma_model_keys(self.pools@);
            if has_key(self.pools@, (dir@, max_depth)) {
                let j = choose|j: int|
                    0 <= j < self.pools@.len() && entry_key(#[trigger] self.pools@[j]) == (
                        dir@,
                        max_depth,
                    );
                assert(false);
            }
        }
        None
    }
    /// Returns the pool of a directory and depth, creating it where there is
    /// none. A pool whose count of known clips differs from that of the
    /// listing handed in is replaced by a full pool over that listing.
    pub fn get_or_create_pool(
        &mut self,
        input_dir: &str,
        max_depth: usize,
        all_videos: Vec<String>,
    ) -> (pool: VideoPoolState)
        requires
            old(self).wf(),
        ensures
            final(self).wf(),
            pool.wf(),
            final(self)@.dom().contains((input_dir@, max_depth)),
            final(self)@[(input_dir@, max_depth)] == pool@,
            final(self)@ == old(self)@.insert((input_dir@, max_depth), pool@),
            pool@ == if old(self)@.dom().contains((input_dir@, max_depth)) && old(self)@[(
                input_dir@,
                max_depth,
            )].all.len() == all_videos@.len() {
                old(self)@[(input_dir@, max_depth)]
            } else {
                PoolView { all: path_views(all_videos@), remaining: path_views(all_videos@) }
            },
    {
        let dir = String::from_str(input_dir);
        let found = self.find(&dir, max_depth);
        let ghost before = self.pools@;
        match found {
            Some(i) => {
                proof {
                    lemma_model_values(before, i as int);
                }
                if self.pools[i].state.all_videos.len() == all_videos.len() {
                    let pool = self.pools[i].state.clone();
                    assert(pool@ == self.pools@[i as int].state@);
                    assert(self@ =~= old(self)@.insert((input_dir@, max_depth), pool@));
                    return pool;
                }
                let state = VideoPoolState::new(all_videos);
                let pool = state.clone();
                assert(pool@ == state@);
                let entry = PoolEntry { dir, max_depth, state };
                self.pools.remove(i);
                self.pools.insert(i, entry);
                proof {
                    assert(self.pools@ =~= before.update(i as int, entry));
                    lemma_model_update(before, i as int, entry);
                    lemma_model_values(self.pools@, i as int);
                }
                pool
            },
            None => {
                let state = VideoPoolState::new(all_videos);
                let pool = state.clone();
                assert(pool@ == state@);
                let entry = PoolEntry { dir, max_depth, state };
                self.pools.push(entry);
                proof {
                    lemma_model_keys(before);
                    assert(self.pools@.drop_last() =~= before);
                    assert forall|a: int, b: int| 0 <= a < b < self.pools@.len() implies entry_key(
                        #[trigger] self.pools@[a],
                    ) != entry_key(#[trigger] self.pools@[b]) by {
                        if b == before.len() {
                            assert(self.pools@[a] == before[a]);
                            assert(!has_key(before, entry_key(entry)));
                        } else {
                            assert(self.pools@[a] == before[a] && self.pools@[b] == before[b]);
                        }
                    }
                }
                pool
            },
        }
    }

    /// Draws up to `count` clips from the pool of a directory and depth,
    /// without replacement and in random order.
    pub fn draw_videos(&mut self, input_dir: &str, max_depth: usize, count: usize) -> (result:
        Result<Vec<String>, PoolError>)
        requires
            old(self).wf(),
        ensures
            final(self).wf(),
            match result {
                Ok(drawn) => {
                    let key = (input_dir@, max_depth);
                    &&& old(self)@.dom().contains(key)
                    &&& final(self)@.dom().contains(key)
                    &&& final(self)@ == old(self)@.insert(key, final(self)@[key])
                    &&& final(self)@[key].all == old(self)@[key].all
                    &&& view_wf(final(self)@[key])
                    &&& drawn@.len() == drawn_count(old(self)@[key], count)
                    &&& path_views(drawn@).to_multiset().add(
                        final(self)@[key].remaining.to_multiset(),
                    ) == stock_of(old(self)@[key]).to_multiset()
                },
                Err(e) => {
                    &&& e == PoolError::PoolNotInitialized
                    &&& !old(self)@.dom().contains((input_dir@, max_depth))
                    &&& final(self)@ == old(self)@
                },
            },
    {
        let dir = String::from_str(input_dir);
        let found = self.find(&dir, max_depth);
        let ghost before = self.pools@;
        match found {
            Some(i) => {
                proof {
                    lemma_model_values(before, i as int);
                }
                let mut entry = self.pools.remove(i);
                let drawn = entry.state.draw(count);
                self.pools.insert(i, entry);
                proof {
                    assert(self.pools@ =~= before.update(i as int, entry));
                    lemma_model_update(before, i as int, entry);
                    lemma_model_values(self.pools@, i as int);
                    assert forall|j: int| 0 <= j < self.pools@.len() implies (
                    #[trigger] self.pools@[j]).state.wf() by {
                        if j != i {
                            assert(self.pools@[j] == before[j]);
                        }
                    }
                }
                Ok(drawn)
            },
            None => Err(PoolError::PoolNotInitialized),
        }
    }

    /// How many clips remain in the pool of a directory and depth; 0 where
    /// there is no such pool.
    pub fn get_remaining_count(&self, input_dir: &str, max_depth: usize) -> (count: usize)
        requires
            self.wf(),
        ensures
            count == if self@.dom().contains((input_dir@, max_depth)) {
                self@[(input_dir@, max_depth)].remaining.len()
            } else {
                0
            },
    {
        let dir = String::from_str(input_dir);
        match self.find(&dir, max_depth) {
            Some(i) => {
                proof {
                    lemma_model_values(self.pools@, i as int);
                }
                self.pools[i].state.remaining_videos.len()
            },
            None => 0,
        }
    }
    /// The name of a pool in text: the directory, two colons, the depth.
    pub fn make_key(input_dir: &str, max_depth: usize) -> (key: String)
        ensures
            key@ == key_text(input_dir@, max_depth),
    {
        let mut key = String::from_str(input_dir);
        key.append("::");
        push_decimal(&mut key, max_depth as u64);
        key
    }
}

/// What keeps a video from being merged with others.
#[derive(Clone, Copy, Debug, PartialEq, Eq, Structural)]
pub enum CompatibilityIssue {
    /// The video at `index` has no known width or height.
    UnknownResolution { index: usize },
    /// The video at `index` has no known duration.
    UnknownDuration { index: usize },
}

/// The outcome of checking a list of probed videos.
#[derive(Debug)]
pub struct CompatibilityResult {
    pub compatible: bool,
    pub issues: Vec<CompatibilityIssue>,
    pub videos_info: Vec<(String, VideoInfo)>,
}

/// The issues of the first `k` videos: for each video in turn, first its
/// resolution, then its duration.
pub open spec fn issues_of(videos: Seq<(String, VideoInfo)>, k: int) -> Seq<CompatibilityIssue>
    decreases k,
{
    if k <= 0 {
        Seq::empty()
    } else {
        let info = videos[k - 1].1;
        let before = issues_of(videos, k - 1);
        let sized = if info.width == 0 || info.height == 0 {
            before.push(CompatibilityIssue::UnknownResolution { index: (k - 1) as usize })
        } else {
            before
        };
        if info.duration_micros <= 0 {
            sized.push(CompatibilityIssue::UnknownDuration { index: (k - 1) as usize })
        } else {
            sized
        }
    }
}

/// Checks that every probed video has a resolution and a duration.
pub fn check_video_compatibility(videos_info: Vec<(String, VideoInfo)>) -> (result:
    CompatibilityResult)
    ensures
        result.videos_info@ == videos_info@,
        result.issues@ == issues_of(videos_info@, videos_info@.len() as int),
        result.compatible == (result.issues@.len() == 0),
{
    let mut issues: Vec<CompatibilityIssue> = Vec::new();
    let mut index: usize = 0;
    while index < videos_info.len()
        invariant
            index <= videos_info@.len(),
            issues@ == issues_of(videos_info@, index as int),
        decreases videos_info.len() - index,
    {
        let info = &videos_info[index].1;
        if info.width == 0 || info.height == 0 {
            issues.push(CompatibilityIssue::UnknownResolution { index });
        }
        if info.duration_micros <= 0 {
            issues.push(CompatibilityIssue::UnknownDuration { index });
        }
        index += 1;
    }
    let compatible: bool = issues.len() == 0;
    CompatibilityResult { compatible, issues, videos_info }
}

/// Why a request to merge clips was turned down before any work was done.
#[derive(Clone, Copy, Debug, PartialEq, Eq, Structural)]
pub enum ConcatRequestError {
    EmptyInputDir,
    EmptyOutputDir,
    ZeroCount,
    InvalidCountRange,
    ZeroRuns,
}

/// The first fault of a request, if it has any.
pub open spec fn request_fault(
    input_dir: Seq<char>,
    output_dir: Seq<char>,
    random_count_min: usize,
    random_count_max: usize,
    run_times: usize,
) -> Option<ConcatRequestError> {
    if input_dir.len() == 0 {
        Some(ConcatRequestError::EmptyInputDir)
    } else if output_dir.len() == 0 {
        Some(ConcatRequestError::EmptyOutputDir)
    } else if random_count_min == 0 || random_count_max == 0 {
        Some(ConcatRequestError::ZeroCount)
    } else if random_count_min > random_count_max {
        Some(ConcatRequestError::InvalidCountRange)
    } else if run_times == 0 {
        Some(ConcatRequestError::ZeroRuns)
    } else {
        None
    }
}

/// Checks the parameters of a request to merge clips.
pub fn validate_concat_request(
    input_dir: &str,
    output_dir: &str,
    random_count_min: usize,
    random_count_max: usize,
    run_times: usize,
) -> (result: Result<(), ConcatRequestError>)
    ensures
        match result {
            Ok(_) => request_fault(
                input_dir@,
                output_dir@,
                random_count_min,
                random_count_max,
                run_times,
            ).is_none(),
            Err(e) => request_fault(
                input_dir@,
                output_dir@,
                random_count_min,
                random_count_max,
                run_times,
            ) == Some(e),
        },
{
    if input_dir.unicode_len() == 0 {
        Err(ConcatRequestError::EmptyInputDir)
    } else if output_dir.unicode_len() == 0 {
        Err(ConcatRequestError::EmptyOutputDir)
    } else if random_count_min == 0 || random_count_max == 0 {
        Err(ConcatRequestError::ZeroCount)
    } else if random_count_min > random_count_max {
        Err(ConcatRequestError::InvalidCountRange)
    } else if run_times == 0 {
        Err(ConcatRequestError::ZeroRuns)
    } else {
        Ok(())
    }
}

/// What one round of a merge job drew from its pool.
#[derive(Clone, Copy, Debug, PartialEq, Eq, Structural)]
pub enum DrawReport {
    /// More clips were asked for than the directory holds.
    Shortfall { desired: usize, available: usize },
    /// The draw used up the pool, or found it refilled.
    Refilled { drawn: usize },
    /// Clips were drawn, and `remaining` are left for later rounds.
    Drawn { drawn: usize, remaining: usize },
}

/// The report of a round that asked for `desired` clips of `available`,
/// drew `drawn` and left `remaining`.
pub open spec fn report_of(desired: usize, available: usize, drawn: usize, remaining: usize) -> DrawReport {
    if desired > available {
        DrawReport::Shortfall { desired, available }
    } else if remaining + drawn == available {
        DrawReport::Refilled { drawn }
    } else {
        DrawReport::Drawn { drawn, remaining }
    }
}

/// Describes what a round drew.
pub fn report_draw(desired: usize, available: usize, drawn: usize, remaining: usize) -> (report:
    DrawReport)
    ensures
        report == report_of(desired, available, drawn, remaining),
{
    if desired > available {
        DrawReport::Shortfall { desired, available }
    } else if remaining as u128 + drawn as u128 == available as u128 {
        DrawReport::Refilled { drawn }
    } else {
        DrawReport::Drawn { drawn, remaining }
    }
}

/// The clips of one round, and what the draw did to the pool.
#[derive(Debug)]
pub struct Round {
    pub videos: Vec<String>,
    pub desired: usize,
    pub report: DrawReport,
}

/// Picks how many clips a round asks for: the fixed count where the range
/// holds one, and else some count of the range.
pub fn pick_count(random_count_min: usize, random_count_max: usize) -> (count: usize)
    requires
        random_count_min <= random_count_max,
    ensures
        random_count_min <= count <= random_count_max,
{
    if random_count_min == random_count_max {
        random_count_min
    } else {
        pick_between(random_count_min, random_count_max)
    }
}

impl VideoPoolManager {
    /// Draws the clips of one round that asks for `desired` clips from a
    /// directory holding `available`: never more than the directory holds.
    pub fn draw_round(
        &mut self,
        input_dir: &str,
        max_depth: usize,
        desired: usize,
        available: usize,
    ) -> (result: Result<Round, PoolError>)
        requires
            old(self).wf(),
        ensures
            final(self).wf(),
            match result {
                Ok(round) => {
                    let key = (input_dir@, max_depth);
                    let asked = if desired <= available {
                        desired
                    } else {
                        available
                    };
                    &&& old(self)@.dom().contains(key)
                    &&& final(self)@.dom().contains(key)
                    &&& final(self)@ == old(self)@.insert(key, final(self)@[key])
                    &&& final(self)@[key].all == old(self)@[key].all
                    &&& round.desired == desired
                    &&& round.videos@.len() == drawn_count(old(self)@[key], asked)
                    &&& path_views(round.videos@).to_multiset().add(
                        final(self)@[key].remaining.to_multiset(),
                    ) == stock_of(old(self)@[key]).to_multiset()
                    &&& round.report == report_of(
                        desired,
                        available,
                        round.videos@.len() as usize,
                        final(self)@[key].remaining.len() as usize,
                    )
                },
                Err(e) => {
                    &&& e == PoolError::PoolNotInitialized
                    &&& !old(self)@.dom().contains((input_dir@, max_depth))
                    &&& final(self)@ == old(self)@
                },
            },
    {
        let asked: usize = if desired <= available {
            desired
        } else {
            available
        };
        match self.draw_videos(input_dir, max_depth, asked) {
            Ok(videos) => {
                let remaining: usize = self.get_remaining_count(input_dir, max_depth);
                let report = report_draw(desired, available, videos.len(), remaining);
                Ok(Round { videos, desired, report })
            },
            Err(e) => Err(e),
        }
    }
}

/// The name of the file that a round writes: the time stamp of the job, and
/// the number of the round where the job has more than one.
pub open spec fn output_name_of(base_timestamp: Seq<char>, run_times: usize, run_index: usize) -> Seq<
    char,
> {
    if run_times == 1 {
        "output_"@ + base_timestamp + ".mp4"@
    } else {
        "output_"@ + base_timestamp + "_"@ + digits_of(run_index as nat) + ".mp4"@
    }
}

/// Names the file that a round writes.
pub fn output_file_name(base_timestamp: &str, run_times: usize, run_index: usize) -> (name: String)
    ensures
        name@ == output_name_of(base_timestamp@, run_times, run_index),
{
    let mut name = String::from_str("output_");
    name.append(base_timestamp);
    if run_times != 1 {
        name.append("_");
        push_decimal(&mut name, run_index as u64);
    }
    name.append(".mp4");
    name
}

/// One `-i` option for each of the first `k` inputs.
pub open spec fn input_arguments(videos: Seq<String>, k: int) -> Seq<Seq<char>>
    decreases k,
{
    if k <= 0 {
        Seq::empty()
    } else {
        input_arguments(videos, k - 1).push("-i"@).push(videos[k - 1]@)
    }
}

/// The options that apply a filter plan, encode its two outputs and name the
/// file to write.
pub open spec fn encode_arguments(filter: Seq<char>, output_path: Seq<char>) -> Seq<Seq<char>> {
    seq![
        "-filter_complex"@,
        filter,
        "-map"@,
        "[outv]"@,
        "-map"@,
        "[outa]"@,
        "-vsync"@,
        "vfr"@,
        "-c:v"@,
        "libx264"@,
        "-preset"@,
        "fast"@,
        "-crf"@,
        "23"@,
        "-pix_fmt"@,
        "yuv420p"@,
        "-c:a"@,
        "aac"@,
        "-b:a"@,
        "192k"@,
        "-fflags"@,
        "+genpts"@,
        "-avoid_negative_ts"@,
        "make_zero"@,
        "-shortest"@,
        output_path,
    ]
}

pub(crate) fn push_argument(arguments: &mut Vec<String>, text: &str)
    ensures
        path_views(final(arguments)@) == path_views(old(arguments)@).push(text@),
{
    arguments.push(String::from_str(text));
    assert(path_views(arguments@) =~= path_views(old(arguments)@).push(text@));
}

/// Builds the arguments with which the transcoder merges the inputs under a
/// filter plan.
pub fn concat_arguments(videos: &Vec<String>, filter: &str, output_path: &str) -> (arguments: Vec<
    String,
>)
    ensures
        path_views(arguments@) == input_arguments(videos@, videos@.len() as int) + encode_arguments(
            filter@,
            output_path@,
        ),
{
    let mut arguments: Vec<String> = Vec::new();
    let mut k: usize = 0;
    assert(path_views(arguments@) =~= input_arguments(videos@, 0));
    while k < videos.len()
        invariant
            k <= videos@.len(),
            path_views(arguments@) == input_arguments(videos@, k as int),
        decreases videos.len() - k,
    {
        push_argument(&mut arguments, "-i");
        push_argument(&mut arguments, videos[k].as_str());
        k += 1;
    }
    let ghost inputs = path_views(arguments@);
    push_argument(&mut arguments, "-filter_complex");
    push_argument(&mut arguments, filter);
    push_argument(&mut arguments, "-map");
    push_argument(&mut arguments, "[outv]");
    push_argument(&mut arguments, "-map");
    push_argument(&mut arguments, "[outa]");
    push_argument(&mut arguments, "-vsync");
    push_argument(&mut arguments, "vfr");
    push_argument(&mut arguments, "-c:v");
    push_argument(&mut arguments, "libx264");
    push_argument(&mut arguments, "-preset");
    push_argument(&mut arguments, "fast");
    push_argument(&mut arguments, "-crf");
    push_argument(&mut arguments, "23");
    push_argument(&mut arguments, "-pix_fmt");
    push_argument(&mut arguments, "yuv420p");
    push_argument(&mut arguments, "-c:a");
    push_argument(&mut arguments, "aac");
    push_argument(&mut arguments, "-b:a");
    push_argument(&mut arguments, "192k");
    push_argument(&mut arguments, "-fflags");
    push_argument(&mut arguments, "+genpts");
    push_argument(&mut arguments, "-avoid_negative_ts");
    push_argument(&mut arguments, "make_zero");
    push_argument(&mut arguments, "-shortest");
    push_argument(&mut arguments, output_path);
    assert(path_views(arguments@) =~= inputs + encode_arguments(filter@, output_path@));
    arguments
}

} // verus!
