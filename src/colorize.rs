use vstd::prelude::*;

verus! {

broadcast use vstd::string::group_string_axioms;

/// One pixel: red, green and blue channels.
#[derive(Clone, Copy, PartialEq, Eq, Structural, Debug)]
pub struct Rgb {
    pub r: u8,
    pub g: u8,
    pub b: u8,
}

impl Rgb {
    pub fn from_channels(c: [u8; 3]) -> (p: Rgb)
        ensures
            p.r == c@[0],
            p.g == c@[1],
            p.b == c@[2],
    {
        Rgb { r: c[0], g: c[1], b: c[2] }
    }
}

/// A decoded image as plain pixels, row by row.
#[derive(Clone, Debug)]
pub struct Bitmap {
    pub width: u32,
    pub height: u32,
    pub pixels: Vec<Rgb>,
}

impl Bitmap {
    pub open spec fn wf(&self) -> bool {
        self.pixels@.len() == self.width * self.height
    }
}

/// The result of analysing a button's colours.
#[derive(Debug)]
pub struct ColorAnalysis {
    pub tags: Vec<String>,
    pub hex_average: String,
}

/// Holds the named reference palette that pixels are matched against.
pub struct ColorAnalyzer {
    colors: Vec<(&'static str, Rgb)>,
}

pub open spec fn rgb(r: u8, g: u8, b: u8) -> Rgb {
    Rgb { r, g, b }
}

/// The eleven named reference colours, in the order in which ties are broken.
pub open spec fn standard_palette() -> Seq<(Seq<char>, Rgb)> {
    seq![
        ("red"@, rgb(255, 0, 0)),
        ("blue"@, rgb(0, 0, 255)),
        ("green"@, rgb(0, 128, 0)),
        ("yellow"@, rgb(255, 255, 0)),
        ("purple"@, rgb(128, 0, 128)),
        ("orange"@, rgb(255, 165, 0)),
        ("black"@, rgb(0, 0, 0)),
        ("white"@, rgb(255, 255, 255)),
        ("gray"@, rgb(128, 128, 128)),
        ("pink"@, rgb(255, 192, 203)),
        ("brown"@, rgb(165, 42, 42)),
    ]
}

/// Squared Euclidean distance between two colours.
pub open spec fn distance2(a: Rgb, b: Rgb) -> int {
    (a.r - b.r) * (a.r - b.r) + (a.g - b.g) * (a.g - b.g) + (a.b - b.b) * (a.b - b.b)
}

/// `i` is the first palette entry at the least distance from `px`.
pub open spec fn is_nearest(p: Seq<(Seq<char>, Rgb)>, px: Rgb, i: int) -> bool {
    &&& 0 <= i < p.len()
    &&& forall|j: int| 0 <= j < p.len() ==> distance2(px, p[i].1) <= #[trigger] distance2(px, p[j].1)
    &&& forall|j: int| 0 <= j < i ==> distance2(px, p[i].1) < #[trigger] distance2(px, p[j].1)
}

/// How many of `pixels` have palette entry `i` as their nearest colour.
pub open spec fn nearest_count(p: Seq<(Seq<char>, Rgb)>, pixels: Seq<Rgb>, i: int) -> nat
    decreases pixels.len(),
{
    if pixels.len() == 0 {
        0
    } else {
        nearest_count(p, pixels.drop_last(), i) + if is_nearest(p, pixels.last(), i) {
            1nat
        } else {
            0nat
        }
    }
}

pub open spec fn nearest_counts(p: Seq<(Seq<char>, Rgb)>, pixels: Seq<Rgb>) -> Seq<nat> {
    Seq::new(p.len(), |i: int| nearest_count(p, pixels, i))
}

pub open spec fn abs_diff(a: u8, b: u8) -> int {
    if a >= b {
        a - b
    } else {
        b - a
    }
}

/// A pixel whose green and blue channels both lie within 10 of its red channel.
pub open spec fn is_grayish(px: Rgb) -> bool {
    abs_diff(px.r, px.g) <= 10 && abs_diff(px.r, px.b) <= 10
}

pub open spec fn all_grayish(pixels: Seq<Rgb>) -> bool {
    forall|k: int| 0 <= k < pixels.len() ==> is_grayish(#[trigger] pixels[k])
}

pub open spec fn distinct_colors(pixels: Seq<Rgb>) -> nat {
    pixels.to_set().len()
}

/// More distinct colours than a tenth of the pixel count.
pub open spec fn is_colorful(pixels: Seq<Rgb>) -> bool {
    distinct_colors(pixels) > pixels.len() / 10
}

/// Index of the most frequent colour among the first `n` palette entries that is not yet in
/// `chosen` and that some pixel is nearest to; the earlier entry wins a tie; -1 if there is none.
pub open spec fn best_remaining(counts: Seq<nat>, chosen: Seq<int>, n: int) -> int
    decreases n,
{
    if n <= 0 {
        -1
    } else {
        let k = best_remaining(counts, chosen, n - 1);
        if counts[n - 1] > 0 && !chosen.contains(n - 1) && (k < 0 || counts[n - 1] > counts[k]) {
            n - 1
        } else {
            k
        }
    }
}

/// Up to `k` palette indices, most frequent first.
pub open spec fn top_colors(counts: Seq<nat>, k: nat) -> Seq<int>
    decreases k,
{
    if k == 0 {
        seq![]
    } else {
        let prev = top_colors(counts, (k - 1) as nat);
        let b = best_remaining(counts, prev, counts.len() as int);
        if b < 0 {
            prev
        } else {
            prev.push(b)
        }
    }
}

/// The tags of an image: `b&w`, `rainbow`, or up to three palette names.
pub open spec fn color_tags(p: Seq<(Seq<char>, Rgb)>, pixels: Seq<Rgb>) -> Seq<Seq<char>> {
    if all_grayish(pixels) {
        seq!["b&w"@]
    } else if is_colorful(pixels) {
        seq!["rainbow"@]
    } else {
        top_colors(nearest_counts(p, pixels), 3).map_values(|i: int| p[i].0)
    }
}

pub open spec fn channel_sum(pixels: Seq<Rgb>, c: int) -> nat
    decreases pixels.len(),
{
    if pixels.len() == 0 {
        0
    } else {
        channel_sum(pixels.drop_last(), c) + (if c == 0 {
            pixels.last().r
        } else if c == 1 {
            pixels.last().g
        } else {
            pixels.last().b
        }) as nat
    }
}

pub open spec fn hex_digit(d: int) -> char {
    "0123456789abcdef"@[d]
}

pub open spec fn hex_byte(x: int) -> Seq<char> {
    seq![hex_digit(x / 16), hex_digit(x % 16)]
}

/// `#rrggbb` of the true (not palette-snapped) average colour, each channel rounded down.
pub open spec fn hex_average_of(pixels: Seq<Rgb>) -> Seq<char> {
    let n = pixels.len() as int;
    seq!['#'] + hex_byte(channel_sum(pixels, 0) as int / n) + hex_byte(
        channel_sum(pixels, 1) as int / n,
    ) + hex_byte(channel_sum(pixels, 2) as int / n)
}


impl View for ColorAnalyzer {
    type V = Seq<(Seq<char>, Rgb)>;

    closed spec fn view(&self) -> Seq<(Seq<char>, Rgb)> {
        Seq::new(self.colors@.len(), |i: int| (self.colors@[i].0@, self.colors@[i].1))
    }
}

impl ColorAnalyzer {
    pub fn new() -> (a: Self)
        ensures
            a@ == standard_palette(),
    {
        let mut colors: Vec<(&'static str, Rgb)> = Vec::new();
        colors.push(("red", Rgb { r: 255, g: 0, b: 0 }));
        colors.push(("blue", Rgb { r: 0, g: 0, b: 255 }));
        colors.push(("green", Rgb { r: 0, g: 128, b: 0 }));
        colors.push(("yellow", Rgb { r: 255, g: 255, b: 0 }));
        colors.push(("purple", Rgb { r: 128, g: 0, b: 128 }));
        colors.push(("orange", Rgb { r: 255, g: 165, b: 0 }));
        colors.push(("black", Rgb { r: 0, g: 0, b: 0 }));
        colors.push(("white", Rgb { r: 255, g: 255, b: 255 }));
        colors.push(("gray", Rgb { r: 128, g: 128, b: 128 }));
        colors.push(("pink", Rgb { r: 255, g: 192, b: 203 }));
        colors.push(("brown", Rgb { r: 165, g: 42, b: 42 }));
        let a = ColorAnalyzer { colors };
        assert(a@ =~= standard_palette());
        a
    }

    /// Squared Euclidean distance; it orders colours exactly as the distance does.
    pub fn color_distance(&self, a: Rgb, b: Rgb) -> (d: u32)
        ensures
            d == distance2(a, b),
    {
        let dr: i32 = a.r as i32 - b.r as i32;
        let dg: i32 = a.g as i32 - b.g as i32;
        let db: i32 = a.b as i32 - b.b as i32;
        assert(dr * dr <= 65025 && dg * dg <= 65025 && db * db <= 65025) by (nonlinear_arith)
            requires
                -255 <= dr <= 255,
                -255 <= dg <= 255,
                -255 <= db <= 255,
        ;
        assert(dr * dr >= 0 && dg * dg >= 0 && db * db >= 0) by (nonlinear_arith);
        (dr * dr + dg * dg + db * db) as u32
    }

    /// Index of the palette entry nearest to `pixel`, the earliest one on a tie.
    pub fn find_closest_color(&self, pixel: Rgb) -> (i: usize)
        requires
            self@.len() > 0,
        ensures
            is_nearest(self@, pixel, i as int),
    {
        let mut best: usize = 0;
        let mut best_d = self.color_distance(pixel, self.colors[0].1);
        let mut k: usize = 1;
        while k < self.colors.len()
            invariant
                self@.len() == self.colors@.len(),
                0 < k <= self.colors@.len(),
                best < k,
                best_d == distance2(pixel, self@[best as int].1),
                forall|j: int| 0 <= j < k ==> best_d <= #[trigger] distance2(pixel, self@[j].1),
                forall|j: int| 0 <= j < best ==> best_d < #[trigger] distance2(pixel, self@[j].1),
            decreases self.colors@.len() - k,
        {
            let d = self.color_distance(pixel, self.colors[k].1);
            if d < best_d {
                best = k;
                best_d = d;
            }
            k = k + 1;
        }
        best
    }

    /// Whether every pixel has green and blue within 10 of red.
    pub fn is_black_and_white(&self, image: &Bitmap) -> (bw: bool)
        ensures
            bw == all_grayish(image.pixels@),
    {
        let mut k: usize = 0;
        while k < image.pixels.len()
            invariant
                0 <= k <= image.pixels@.len(),
                all_grayish(image.pixels@.take(k as int)),
            decreases image.pixels@.len() - k,
        {
            let px = image.pixels[k];
            let dg: i16 = px.r as i16 - px.g as i16;
            let db: i16 = px.r as i16 - px.b as i16;
            if dg > 10 || dg < -10 || db > 10 || db < -10 {
                assert(!is_grayish(image.pixels@[k as int]));
                return false;
            }
            assert(image.pixels@.take(k + 1) =~= image.pixels@.take(k as int).push(px));
            k = k + 1;
        }
        assert(image.pixels@.take(k as int) =~= image.pixels@);
        true
    }
}


pub proof fn lemma_nearest_unique(p: Seq<(Seq<char>, Rgb)>, px: Rgb, i: int, j: int)
    requires
        is_nearest(p, px, i),
        is_nearest(p, px, j),
    ensures
        i == j,
{
    if i < j {
        assert(distance2(px, p[j].1) < distance2(px, p[i].1));
    } else if j < i {
        assert(distance2(px, p[i].1) < distance2(px, p[j].1));
    }
}

pub proof fn lemma_best_remaining_range(counts: Seq<nat>, chosen: Seq<int>, n: int)
    requires
        0 <= n <= counts.len(),
    ensures
        -1 <= best_remaining(counts, chosen, n) < n,
        best_remaining(counts, chosen, n) >= 0 ==> counts[best_remaining(counts, chosen, n)] > 0
            && !chosen.contains(best_remaining(counts, chosen, n)),
    decreases n,
{
    if n > 0 {
        lemma_best_remaining_range(counts, chosen, n - 1);
    }
}

pub open spec fn index_view(v: Seq<usize>) -> Seq<int> {
    v.map_values(|x: usize| x as int)
}

pub open spec fn count_view(v: Seq<usize>) -> Seq<nat> {
    v.map_values(|x: usize| x as nat)
}

fn contains_index(v: &Vec<usize>, x: usize) -> (r: bool)
    ensures
        r == index_view(v@).contains(x as int),
{
    let mut k: usize = 0;
    while k < v.len()
        invariant
            0 <= k <= v@.len(),
            forall|t: int| 0 <= t < k ==> v@[t] != x,
        decreases v@.len() - k,
    {
        if v[k] == x {
            assert(index_view(v@)[k as int] == x as int);
            return true;
        }
        k = k + 1;
    }
    assert(!index_view(v@).contains(x as int)) by {
        if index_view(v@).contains(x as int) {
            let t = choose|t: int| 0 <= t < index_view(v@).len() && index_view(v@)[t] == x as int;
            assert(v@[t] == x);
        }
    }
    false
}

fn best_remaining_color(counts: &Vec<usize>, chosen: &Vec<usize>) -> (b: Option<usize>)
    ensures
        match b {
            Some(i) => i as int == best_remaining(
                count_view(counts@),
                index_view(chosen@),
                counts@.len() as int,
            ),
            None => best_remaining(count_view(counts@), index_view(chosen@), counts@.len() as int)
                < 0,
        },
{
    let ghost cv = count_view(counts@);
    let ghost chv = index_view(chosen@);
    let mut best: Option<usize> = None;
    let mut j: usize = 0;
    while j < counts.len()
        invariant
            0 <= j <= counts@.len(),
            cv == count_view(counts@),
            chv == index_view(chosen@),
            match best {
                Some(i) => i < j && i as int == best_remaining(cv, chv, j as int),
                None => best_remaining(cv, chv, j as int) < 0,
            },
        decreases counts@.len() - j,
    {
        proof {
            lemma_best_remaining_range(cv, chv, j as int);
        }
        if counts[j] > 0 && !contains_index(chosen, j) {
            match best {
                Some(i) => {
                    if counts[j] > counts[i] {
                        best = Some(j);
                    }
                },
                None => {
                    best = Some(j);
                },
            }
        }
        j = j + 1;
    }
    best
}

/// Indices of up to three of the most frequent colours, most frequent first.
fn top_three(counts: &Vec<usize>) -> (sel: Vec<usize>)
    ensures
        index_view(sel@) == top_colors(count_view(counts@), 3),
{
    let mut sel: Vec<usize> = Vec::new();
    let mut k: usize = 0;
    while k < 3
        invariant
            0 <= k <= 3,
            index_view(sel@) == top_colors(count_view(counts@), k as nat),
        decreases 3 - k,
    {
        let b = best_remaining_color(counts, &sel);
        match b {
            Some(i) => {
                let ghost old_sel = sel@;
                sel.push(i);
                assert(index_view(sel@) =~= index_view(old_sel).push(i as int));
            },
            None => {},
        }
        k = k + 1;
    }
    sel
}

fn count_distinct(pixels: &Vec<Rgb>) -> (n: usize)
    ensures
        n == distinct_colors(pixels@),
{
    let mut seen: Vec<Rgb> = Vec::new();
    let mut k: usize = 0;
    while k < pixels.len()
        invariant
            0 <= k <= pixels@.len(),
            seen@.no_duplicates(),
            seen@.to_set() == pixels@.take(k as int).to_set(),
            seen@.len() <= k,
        decreases pixels@.len() - k,
    {
        let px = pixels[k];
        let mut found = false;
        let mut j: usize = 0;
        while j < seen.len()
            invariant
                0 <= j <= seen@.len(),
                found ==> seen@.contains(px),
                !found ==> forall|t: int| 0 <= t < j ==> seen@[t] != px,
            decreases seen@.len() - j,
        {
            if seen[j] == px {
                found = true;
            }
            j = j + 1;
        }
        proof {
            assert(pixels@.take(k + 1) =~= pixels@.take(k as int).push(px));
            pixels@.take(k as int).lemma_push_to_set_commute(px);
            seen@.lemma_push_to_set_commute(px);
        }
        if !found {
            seen.push(px);
        } else {
            assert(seen@.to_set().insert(px) =~= seen@.to_set());
        }
        k = k + 1;
    }
    proof {
        assert(pixels@.take(k as int) =~= pixels@);
        seen@.unique_seq_to_set();
    }
    seen.len()
}


fn hex_digit_char(d: u8) -> (c: char)
    requires
        d < 16,
    ensures
        c == hex_digit(d as int),
{
    proof {
        reveal_strlit("0123456789abcdef");
    }
    "0123456789abcdef".get_char(d as usize)
}

fn push_hex_byte(out: &mut Vec<char>, x: u8)
    ensures
        final(out)@ == old(out)@ + hex_byte(x as int),
{
    out.push(hex_digit_char(x / 16));
    out.push(hex_digit_char(x % 16));
    assert(final(out)@ =~= old(out)@ + hex_byte(x as int));
}

fn channel_total(pixels: &Vec<Rgb>, c: usize) -> (t: u128)
    requires
        c < 3,
    ensures
        t == channel_sum(pixels@, c as int),
        t <= 255 * pixels@.len(),
{
    let mut t: u128 = 0;
    let mut k: usize = 0;
    while k < pixels.len()
        invariant
            c < 3,
            0 <= k <= pixels@.len(),
            t == channel_sum(pixels@.take(k as int), c as int),
            t <= 255 * k,
        decreases pixels@.len() - k,
    {
        let px = pixels[k];
        assert(pixels@.take(k + 1).drop_last() =~= pixels@.take(k as int));
        let v: u8 = if c == 0 {
            px.r
        } else if c == 1 {
            px.g
        } else {
            px.b
        };
        t = t + v as u128;
        k = k + 1;
    }
    assert(pixels@.take(k as int) =~= pixels@);
    t
}

fn channel_average(pixels: &Vec<Rgb>, c: usize) -> (a: u8)
    requires
        c < 3,
        pixels@.len() > 0,
    ensures
        a == channel_sum(pixels@, c as int) as int / pixels@.len() as int,
{
    let n = pixels.len() as u128;
    let t = channel_total(pixels, c);
    assert(t / n <= 255) by (nonlinear_arith)
        requires
            t <= 255 * n,
            n > 0,
    ;
    (t / n) as u8
}

fn average_hex(pixels: &Vec<Rgb>) -> (h: String)
    requires
        pixels@.len() > 0,
    ensures
        h@ == hex_average_of(pixels@),
{
    let mut out: Vec<char> = Vec::new();
    out.push('#');
    push_hex_byte(&mut out, channel_average(pixels, 0));
    push_hex_byte(&mut out, channel_average(pixels, 1));
    push_hex_byte(&mut out, channel_average(pixels, 2));
    assert(out@ =~= hex_average_of(pixels@));
    crate::text::string_of(&out)
}


impl ColorAnalyzer {
    /// For each palette entry, how many pixels have it as their nearest colour.
    fn nearest_color_counts(&self, pixels: &Vec<Rgb>) -> (counts: Vec<usize>)
        requires
            self@.len() > 0,
        ensures
            counts@.len() == self@.len(),
            count_view(counts@) == nearest_counts(self@, pixels@),
    {
        let mut counts: Vec<usize> = Vec::new();
        while counts.len() < self.colors.len()
            invariant
                self@.len() == self.colors@.len(),
                counts@.len() <= self@.len(),
                forall|i: int| 0 <= i < counts@.len() ==> counts@[i] == 0,
            decreases self@.len() - counts@.len(),
        {
            counts.push(0);
        }
        let mut k: usize = 0;
        while k < pixels.len()
            invariant
                self@.len() > 0,
                self@.len() == self.colors@.len(),
                0 <= k <= pixels@.len(),
                counts@.len() == self@.len(),
                forall|i: int|
                    0 <= i < counts@.len() ==> #[trigger] counts@[i] == nearest_count(
                        self@,
                        pixels@.take(k as int),
                        i,
                    ) && counts@[i] <= k,
            decreases pixels@.len() - k,
        {
            let px = pixels[k];
            let n = self.find_closest_color(px);
            proof {
                assert(pixels@.take(k + 1).drop_last() =~= pixels@.take(k as int));
                assert(pixels@.take(k + 1).last() == px);
                assert forall|i: int| 0 <= i < counts@.len() && i != n implies !is_nearest(
                    self@,
                    px,
                    i,
                ) by {
                    if is_nearest(self@, px, i) {
                        lemma_nearest_unique(self@, px, i, n as int);
                    }
                }
            }
            let c = counts[n];
            counts.set(n, c + 1);
            k = k + 1;
        }
        assert(pixels@.take(k as int) =~= pixels@);
        assert(count_view(counts@) =~= nearest_counts(self@, pixels@));
        counts
    }

    /// Colour tags and true average colour of an image.
    pub fn analyze_image(&self, image: &Bitmap) -> (a: ColorAnalysis)
        requires
            self@.len() > 0,
            image.pixels@.len() > 0,
        ensures
            names_of(a.tags@) == color_tags(self@, image.pixels@),
            a.hex_average@ == hex_average_of(image.pixels@),
    {
        let pixels = &image.pixels;
        let hex_average = average_hex(pixels);
        let mut tags: Vec<String> = Vec::new();
        if self.is_black_and_white(image) {
            tags.push("b&w".to_owned());
            assert(names_of(tags@) =~= seq!["b&w"@]);
        } else if count_distinct(pixels) > pixels.len() / 10 {
            tags.push("rainbow".to_owned());
            assert(names_of(tags@) =~= seq!["rainbow"@]);
        } else {
            let counts = self.nearest_color_counts(pixels);
            let sel = top_three(&counts);
            let ghost top = top_colors(nearest_counts(self@, pixels@), 3);
            proof {
                lemma_top_colors_range(nearest_counts(self@, pixels@), 3);
            }
            let mut k: usize = 0;
            while k < sel.len()
                invariant
                    0 <= k <= sel@.len(),
                    index_view(sel@) == top,
                    forall|t: int| 0 <= t < top.len() ==> 0 <= #[trigger] top[t] < self@.len(),
                    self@.len() == self.colors@.len(),
                    names_of(tags@) == top.take(k as int).map_values(|i: int| self@[i].0),
                decreases sel@.len() - k,
            {
                let i = sel[k];
                assert(top[k as int] == i as int);
                let ghost before = tags@;
                let name = self.colors[i].0.to_owned();
                assert(name@ == self@[i as int].0);
                tags.push(name);
                assert(names_of(tags@) =~= names_of(before).push(name@));
                assert(top.take(k + 1) =~= top.take(k as int).push(i as int));
                assert(names_of(tags@) =~= top.take(k + 1).map_values(|i: int| self@[i].0));
                k = k + 1;
            }
            assert(top.take(k as int) =~= top);
        }
        ColorAnalysis { tags, hex_average }
    }
}

pub proof fn lemma_top_colors_range(counts: Seq<nat>, k: nat)
    ensures
        forall|t: int|
            0 <= t < top_colors(counts, k).len() ==> 0 <= #[trigger] top_colors(counts, k)[t]
                < counts.len(),
        top_colors(counts, k).len() <= k,
    decreases k,
{
    if k > 0 {
        lemma_top_colors_range(counts, (k - 1) as nat);
        let prev = top_colors(counts, (k - 1) as nat);
        lemma_best_remaining_range(counts, prev, counts.len() as int);
    }
}

pub open spec fn names_of(v: Seq<String>) -> Seq<Seq<char>> {
    v.map_values(|s: String| s@)
}

} // verus!
