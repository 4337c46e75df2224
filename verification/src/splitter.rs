//! The executable scanner and partitioner, each proved to return exactly the
//! value of its model in [`crate::scan`].

use vstd::prelude::*;

use crate::buffer::PixelBuffer;
use crate::rect::Rect;
use crate::scan::{
    abs_diff, cut_chain, cut_chain_at, cut_ints, cut_pos, cuts_from, intensity_sum,
    lemma_cuts_from_chain, lemma_intensity_sum_bound, lemma_intensity_sum_push, lemma_scan_props,
    line_defined, line_samples, partition, partition_pieces, row_empty, scan, scan_at_slope,
    scan_from, sheared_y, single_color, slopes, tiling_of, whole_rect,
};

verus! {

/// Splits an image into the sub-images that its near-uniform horizontal
/// separator bands delimit.
pub struct Splitter {
    /// Callers that write the resulting crops out may also want the source
    /// image removed afterwards; the scanning itself never reads this.
    pub remove_original: bool,
    /// Whether the separator bands are near-black rather than near-white.
    pub black_lines: bool,
}

impl Splitter {
    /// The intensity a gutter row is expected to average.
    pub open spec fn goal_color_spec(self) -> int {
        if self.black_lines {
            0
        } else {
            255
        }
    }

    /// How far a running average may stray from the target intensity: a dark
    /// gutter tolerates much more (scanned blacks are noisy) than a white one.
    pub open spec fn error_margin_spec(self) -> int {
        if self.black_lines {
            100
        } else {
            5
        }
    }

    /// The distance between two intensities.
    pub fn abs_difference(x: usize, y: usize) -> (r: usize)
        ensures
            r == abs_diff(x as int, y as int),
    {
        if x < y {
            y - x
        } else {
            x - y
        }
    }

    /// The row hit when sampling row `start_y` at column `x` under a slope of
    /// `angle_tenths` tenths of a pixel per pixel: negative when the sheared
    /// line has left the top of the buffer.
    pub fn get_y(start_y: usize, x: usize, angle_tenths: i32) -> (r: i64)
        requires
            start_y <= u32::MAX,
            x <= u32::MAX,
            -6 <= angle_tenths <= 6,
        ensures
            r == sheared_y(start_y as int, x as int, angle_tenths as int),
    {
        proof {
            assert(-6 * (x as int) <= (angle_tenths as int) * (x as int) <= 6 * (x as int))
                by (nonlinear_arith)
                requires
                    -6 <= angle_tenths as int <= 6,
                    0 <= x as int,
            ;
        }
        let num: i64 = 10 * (start_y as i64) + (angle_tenths as i64) * (x as i64);
        num.checked_div_euclid(10).unwrap()
    }

    /// Block-averaging uniformity test: every tenth sample, the running
    /// average must stay within `error_margin` of `goal_color`; an empty line
    /// is never single-color.
    pub fn line_is_single_color(line: Vec<u8>, goal_color: usize, error_margin: usize) -> (r: bool)
        ensures
            r == single_color(line@, goal_color as int, error_margin as int),
    {
        let n = line.len();
        if n == 0 {
            return false;
        }
        let mut total: u128 = 0;
        let mut count: usize = 0;
        while count < n
            invariant
                0 <= count <= n,
                n == line@.len(),
                total == intensity_sum(line@.take(count as int)),
                forall|k: int|
                    1 <= k <= count && k % 10 == 0 ==> abs_diff(
                        intensity_sum(#[trigger] line@.take(k)) / k,
                        goal_color as int,
                    ) <= error_margin as int,
            decreases n - count,
        {
            let v = line[count];
            proof {
                lemma_intensity_sum_bound(line@.take(count as int));
                lemma_intensity_sum_push(line@.take(count as int), line@[count as int]);
                assert(line@.take(count as int).push(line@[count as int]) =~= line@.take(
                    count as int + 1,
                ));
            }
            total = total + v as u128;
            count = count + 1;
            if count % 10 == 0 {
                proof {
                    lemma_intensity_sum_bound(line@.take(count as int));
                    assert(total as int / count as int <= 255) by (nonlinear_arith)
                        requires
                            0 <= total as int <= 255 * count,
                            count >= 1,
                    ;
                }
                let average: usize = (total / (count as u128)) as usize;
                if Self::abs_difference(average, goal_color) > error_margin {
                    assert(!single_color(line@, goal_color as int, error_margin as int)) by {
                        assert(abs_diff(
                            intensity_sum(line@.take(count as int)) / count as int,
                            goal_color as int,
                        ) > error_margin as int);
                    }
                    return false;
                }
            }
        }
        assert(line@.take(n as int) =~= line@);
        true
    }

    /// The sheared line for row `start_y`: the sample at each column of
    /// `section`, or an empty line as soon as the shear leaves `section`'s
    /// rows.
    pub fn get_line(
        buffer: &PixelBuffer,
        section: &Rect,
        start_y: usize,
        angle_tenths: i32,
    ) -> (r: Vec<u8>)
        requires
            buffer.wf(),
            section.wf(buffer.width as int, buffer.height as int),
            start_y <= u32::MAX,
            -6 <= angle_tenths <= 6,
        ensures
            line_defined(*buffer, *section, start_y as int, angle_tenths as int) ==> r@
                == line_samples(*buffer, *section, start_y as int, angle_tenths as int),
            !line_defined(*buffer, *section, start_y as int, angle_tenths as int) ==> r@
                == Seq::<u8>::empty(),
    {
        let ghost samples = line_samples(*buffer, *section, start_y as int, angle_tenths as int);
        let mut rv: Vec<u8> = Vec::new();
        let end_x = section.x + section.width;
        let mut x = section.x;
        while x < end_x
            invariant
                buffer.wf(),
                section.wf(buffer.width as int, buffer.height as int),
                start_y <= u32::MAX,
                -6 <= angle_tenths <= 6,
                section.x <= x <= end_x,
                end_x == section.end_x(),
                samples == line_samples(*buffer, *section, start_y as int, angle_tenths as int),
                forall|xi: int|
                    section.x <= xi < x ==> section.y <= #[trigger] sheared_y(
                        start_y as int,
                        xi,
                        angle_tenths as int,
                    ) < section.end_y(),
                rv@ == samples.take(x - section.x),
            decreases end_x - x,
        {
            let ty = Self::get_y(start_y, x, angle_tenths);
            if ty < section.y as i64 || ty >= (section.y + section.height) as i64 {
                return Vec::new();
            }
            let tyu = ty as usize;
            let p = buffer.get_pixel(x, tyu);
            rv.push(p);
            x = x + 1;
            proof {
                assert(samples[x - 1 - section.x] == p);
                assert(samples.take(x - section.x) =~= samples.take(x - 1 - section.x).push(p));
            }
        }
        proof {
            assert(rv@ =~= samples);
        }
        rv
    }

    /// Scan `section` under a single slope: the tiling at the cuts found, or
    /// an empty result when no cut was kept.
    fn scan_section_at_slope(
        &self,
        buffer: &PixelBuffer,
        section: &Rect,
        slope_tenths: i32,
    ) -> (r: Vec<Rect>)
        requires
            buffer.wf(),
            section.wf(buffer.width as int, buffer.height as int),
            -6 <= slope_tenths <= 6,
        ensures
            r@ == scan_at_slope(
                *buffer,
                *section,
                self.goal_color_spec(),
                self.error_margin_spec(),
                slope_tenths as int,
            ),
    {
        let goal_color: usize = if self.black_lines {
            0
        } else {
            255
        };
        let error_margin: usize = if self.black_lines {
            100
        } else {
            5
        };
        let ghost g = self.goal_color_spec();
        let ghost m = self.error_margin_spec();
        let ghost a = slope_tenths as int;
        let min_height = section.height / 5;
        let end_y = section.y + section.height;
        let mid_x = section.x + section.width / 2;
        let mut cuts: Vec<usize> = Vec::new();
        let mut run: usize = 0;
        let mut top: usize = section.y;
        let mut y = section.y;
        while y < end_y
            invariant
                buffer.wf(),
                section.wf(buffer.width as int, buffer.height as int),
                -6 <= slope_tenths <= 6,
                g == self.goal_color_spec(),
                m == self.error_margin_spec(),
                a == slope_tenths as int,
                goal_color as int == g,
                error_margin as int == m,
                end_y == section.end_y(),
                mid_x == section.mid_x(),
                min_height == section.height as int / 5,
                section.y <= y <= end_y,
                run <= y - section.y,
                section.y <= top < end_y,
                forall|j: int| y - run <= j < y ==> row_empty(*buffer, *section, g, m, a, j),
                cut_ints(cuts@) + cuts_from(
                    *buffer,
                    *section,
                    g,
                    m,
                    a,
                    y as int,
                    run as int,
                    top as int,
                ) == cuts_from(
                    *buffer,
                    *section,
                    g,
                    m,
                    a,
                    section.y as int,
                    0,
                    section.y as int,
                ),
            decreases end_y - y,
        {
            let line = Self::get_line(buffer, section, y, slope_tenths);
            let row_is_empty = Self::line_is_single_color(line, goal_color, error_margin);
            proof {
                if line_defined(*buffer, *section, y as int, a) {
                    assert(line@ == line_samples(*buffer, *section, y as int, a));
                } else {
                    assert(line@.len() == 0);
                }
                assert(row_is_empty == row_empty(*buffer, *section, g, m, a, y as int));
            }
            if row_is_empty {
                proof {
                    assert(cuts_from(*buffer, *section, g, m, a, y as int, run as int, top as int)
                        == cuts_from(
                        *buffer,
                        *section,
                        g,
                        m,
                        a,
                        y as int + 1,
                        run as int + 1,
                        top as int,
                    ));
                }
                run = run + 1;
            } else {
                if run >= 5 {
                    let temp_y = y - run / 2;
                    proof {
                        assert(y - run <= temp_y < y);
                        assert(row_empty(*buffer, *section, g, m, a, temp_y as int));
                        assert(section.x <= section.mid_x() < section.end_x());
                        assert(section.y <= sheared_y(temp_y as int, section.mid_x(), a)
                            < section.end_y());
                        assert(cut_pos(*section, a, y as int, run as int) == sheared_y(
                            temp_y as int,
                            section.mid_x(),
                            a,
                        ));
                    }
                    let cut_raw = Self::get_y(temp_y, mid_x, slope_tenths);
                    let cut = cut_raw as usize;
                    proof {
                        assert(cut as int == cut_pos(*section, a, y as int, run as int));
                    }
                    if cut > top && cut - top > min_height {
                        proof {
                            let c = cut_pos(*section, a, y as int, run as int);
                            let rest = cuts_from(
                                *buffer,
                                *section,
                                g,
                                m,
                                a,
                                y as int + 1,
                                0,
                                c,
                            );
                            assert(cuts_from(
                                *buffer,
                                *section,
                                g,
                                m,
                                a,
                                y as int,
                                run as int,
                                top as int,
                            ) == seq![c] + rest);
                            assert(cut_ints(cuts@.push(cut)) =~= cut_ints(cuts@).push(c));
                            assert(cut_ints(cuts@).push(c) + rest =~= cut_ints(cuts@) + (seq![c]
                                + rest));
                        }
                        cuts.push(cut);
                        top = cut;
                    } else {
                        proof {
                            assert(!(cut_pos(*section, a, y as int, run as int) - top
                                > section.height as int / 5));
                            assert(cuts_from(
                                *buffer,
                                *section,
                                g,
                                m,
                                a,
                                y as int,
                                run as int,
                                top as int,
                            ) == cuts_from(
                                *buffer,
                                *section,
                                g,
                                m,
                                a,
                                y as int + 1,
                                0,
                                top as int,
                            ));
                        }
                    }
                    run = 0;
                } else {
                    proof {
                        assert(cuts_from(
                            *buffer,
                            *section,
                            g,
                            m,
                            a,
                            y as int,
                            run as int,
                            top as int,
                        ) == cuts_from(*buffer, *section, g, m, a, y as int + 1, 0, top as int));
                    }
                    run = 0;
                }
            }
            y = y + 1;
        }
        proof {
            assert(cuts_from(*buffer, *section, g, m, a, y as int, run as int, top as int)
                =~= Seq::<int>::empty());
            assert(cut_ints(cuts@) =~= cuts_from(
                *buffer,
                *section,
                g,
                m,
                a,
                section.y as int,
                0,
                section.y as int,
            ));
            lemma_cuts_from_chain(*buffer, *section, g, m, a, section.y as int, 0, section.y as int);
        }
        let ghost cs = cut_ints(cuts@);
        let k = cuts.len();
        if k == 0 {
            let rs: Vec<Rect> = Vec::new();
            proof {
                assert(rs@ =~= scan_at_slope(*buffer, *section, g, m, a));
            }
            rs
        } else {
            let ghost min_h = section.height as int / 5;
            let mut rs: Vec<Rect> = Vec::new();
            let mut i: usize = 0;
            while i <= k
                invariant
                    section.wf(buffer.width as int, buffer.height as int),
                    k == cuts@.len(),
                    k >= 1,
                    cs == cut_ints(cuts@),
                    end_y == section.end_y(),
                    min_h == section.height as int / 5,
                    cut_chain(cs, section.y as int, section.end_y(), min_h),
                    0 <= i <= k + 1,
                    rs@ == tiling_of(*section, cs).take(i as int),
                decreases k + 1 - i,
            {
                proof {
                    if i > 0 {
                        assert(cs[i - 1] == cuts@[i - 1] as int);
                        assert(cut_chain_at(cs, section.y as int, section.end_y(), min_h, i - 1));
                    }
                    if i < k {
                        assert(cs[i as int] == cuts@[i as int] as int);
                        assert(cut_chain_at(cs, section.y as int, section.end_y(), min_h, i as int));
                    }
                }
                let lo = if i == 0 {
                    section.y
                } else {
                    cuts[i - 1]
                };
                let hi = if i == k {
                    end_y
                } else {
                    cuts[i]
                };
                let piece = Rect { x: section.x, y: lo, width: section.width, height: hi - lo };
                proof {
                    assert(piece == tiling_of(*section, cs)[i as int]);
                }
                rs.push(piece);
                proof {
                    assert(rs@ =~= tiling_of(*section, cs).take(i as int + 1));
                }
                i = i + 1;
            }
            proof {
                assert(rs@ =~= tiling_of(*section, cs));
            }
            rs
        }
    }

    /// One slope of the fixed search list, in tenths.
    fn slope_at(i: usize) -> (a: i32)
        requires
            i < slopes().len(),
        ensures
            a as int == slopes()[i as int],
            -6 <= a <= 6,
    {
        if i == 0 {
            0
        } else if i == 1 {
            -1
        } else if i == 2 {
            1
        } else if i == 3 {
            -6
        } else if i == 4 {
            -5
        } else if i == 5 {
            -4
        } else if i == 6 {
            -3
        } else if i == 7 {
            -2
        } else if i == 8 {
            2
        } else if i == 9 {
            3
        } else if i == 10 {
            4
        } else if i == 11 {
            5
        } else {
            6
        }
    }

    /// The region scanner: try each slope of the search list in order and
    /// return the tiling of the first slope that yields a split; when none
    /// does, the unchanged section is the single tile.
    pub fn scan_section(&self, buffer: &PixelBuffer, section: &Rect) -> (r: Vec<Rect>)
        requires
            buffer.wf(),
            section.wf(buffer.width as int, buffer.height as int),
        ensures
            r@ == scan(*buffer, *section, self.goal_color_spec(), self.error_margin_spec()),
    {
        let ghost g = self.goal_color_spec();
        let ghost m = self.error_margin_spec();
        let mut i: usize = 0;
        while i < 13
            invariant
                buffer.wf(),
                section.wf(buffer.width as int, buffer.height as int),
                g == self.goal_color_spec(),
                m == self.error_margin_spec(),
                0 <= i <= 13,
                slopes().len() == 13,
                scan_from(*buffer, *section, g, m, 0) == scan_from(*buffer, *section, g, m, i as int),
            decreases 13 - i,
        {
            let slope = Self::slope_at(i);
            let r = self.scan_section_at_slope(buffer, section, slope);
            if r.len() > 0 {
                proof {
                    assert(scan_from(*buffer, *section, g, m, i as int) == scan_at_slope(
                        *buffer,
                        *section,
                        g,
                        m,
                        slopes()[i as int],
                    ));
                }
                return r;
            }
            proof {
                assert(scan_from(*buffer, *section, g, m, i as int) == scan_from(
                    *buffer,
                    *section,
                    g,
                    m,
                    i as int + 1,
                ));
            }
            i = i + 1;
        }
        let mut rs: Vec<Rect> = Vec::new();
        rs.push(*section);
        proof {
            assert(rs@ =~= scan_from(*buffer, *section, g, m, 13));
        }
        rs
    }

    /// The recursive partitioner: scan `section`; a section the scanner
    /// returns unchanged is a leaf; otherwise partition every piece of the
    /// split and concatenate the results in order of discovery.
    pub fn get_split_regions_recursive(&self, buffer: &PixelBuffer, section: &Rect) -> (r: Vec<
        Rect,
    >)
        requires
            buffer.wf(),
            section.wf(buffer.width as int, buffer.height as int),
        ensures
            r@ == partition(*buffer, *section, self.goal_color_spec(), self.error_margin_spec()),
        decreases section.height,
    {
        let ghost g = self.goal_color_spec();
        let ghost m = self.error_margin_spec();
        let parts = self.scan_section(buffer, section);
        proof {
            lemma_scan_props(*buffer, *section, g, m);
        }
        if parts.len() <= 1 {
            proof {
                assert(parts@ =~= seq![*section]);
            }
            parts
        } else {
            let ghost subs = partition_pieces(*buffer, parts@, g, m, section.height as int);
            let n = parts.len();
            let mut out: Vec<Rect> = Vec::new();
            let mut i: usize = 0;
            while i < n
                invariant
                    buffer.wf(),
                    section.wf(buffer.width as int, buffer.height as int),
                    g == self.goal_color_spec(),
                    m == self.error_margin_spec(),
                    n == parts@.len(),
                    n >= 2,
                    subs == partition_pieces(*buffer, parts@, g, m, section.height as int),
                    forall|j: int|
                        0 <= j < n ==> (#[trigger] parts@[j]).wf(
                            buffer.width as int,
                            buffer.height as int,
                        ),
                    forall|j: int| 0 <= j < n ==> (#[trigger] parts@[j]).height < section.height,
                    0 <= i <= n,
                    out@ == subs.take(i as int).flatten(),
                decreases n - i,
            {
                let child = parts[i];
                let mut sub = self.get_split_regions_recursive(buffer, &child);
                proof {
                    assert(subs[i as int] == partition(*buffer, parts@[i as int], g, m));
                    subs.take(i as int).lemma_flatten_push(subs[i as int]);
                    assert(subs.take(i as int).push(subs[i as int]) =~= subs.take(i as int + 1));
                }
                out.append(&mut sub);
                i = i + 1;
            }
            proof {
                assert(subs.take(n as int) =~= subs);
            }
            out
        }
    }

    /// All leaf regions of a buffer: the recursive partitioner applied to the
    /// whole extent, leaves in top-to-bottom order of discovery.
    pub fn get_split_regions(&self, buffer: &PixelBuffer) -> (r: Vec<Rect>)
        requires
            buffer.wf(),
            buffer.width >= 1,
            buffer.height >= 1,
        ensures
            r@ == partition(
                *buffer,
                whole_rect(*buffer),
                self.goal_color_spec(),
                self.error_margin_spec(),
            ),
    {
        let whole = Rect { x: 0, y: 0, width: buffer.width, height: buffer.height };
        self.get_split_regions_recursive(buffer, &whole)
    }

    /// Insert `suffix` between a file name's stem and its extension, split at
    /// the last `.` of the name: `page.png` with suffix `3` becomes
    /// `page_3.png`.
    pub fn add_file_suffix(input_path: &str, suffix: &str) -> (r: String)
        requires
            has_extension(input_path@),
        ensures
            r@ == with_suffix(input_path@, suffix@),
    {
        let n = input_path.unicode_len();
        assert(n >= 2);
        let mut d = n - 1;
        loop
            invariant_except_break
                has_extension(input_path@),
                n == input_path@.len(),
                1 <= d < n,
                forall|j: int| d < j < n ==> input_path@[j] != '.',
            ensures
                is_last_dot(input_path@, d as int),
                d < n,
            decreases d,
        {
            let c = input_path.get_char(d);
            if c == '.' {
                break;
            }
            proof {
                if d == 1 {
                    let d0 = choose|d0: int| 1 <= d0 < input_path@.len() && input_path@[d0] == '.';
                    assert(input_path@[d0] != '.');
                }
            }
            d = d - 1;
        }
        proof {
            lemma_last_dot_unique(input_path@, d as int);
        }
        let stem = input_path.substring_char(0, d);
        let rest = input_path.substring_char(d + 1, n);
        let mut r = String::from_str(stem);
        r.append("_");
        r.append(suffix);
        r.append(".");
        r.append(rest);
        proof {
            reveal_strlit("_");
            reveal_strlit(".");
            assert(r@ =~= with_suffix(input_path@, suffix@));
        }
        r
    }
}

/// `s` holds a `.` that is not its first character, so that a non-empty stem
/// precedes the extension.
pub open spec fn has_extension(s: Seq<char>) -> bool {
    exists|d: int| 1 <= d < s.len() && s[d] == '.'
}

/// `d` is the position of the last `.` in `s`.
pub open spec fn is_last_dot(s: Seq<char>, d: int) -> bool {
    &&& 0 <= d < s.len()
    &&& s[d] == '.'
    &&& forall|j: int| d < j < s.len() ==> s[j] != '.'
}

/// The position of the last `.` in `s`.
pub open spec fn last_dot(s: Seq<char>) -> int {
    choose|d: int| is_last_dot(s, d)
}

/// `name` with `suffix` spliced in between stem and extension, separated from
/// the stem by `_`.
pub open spec fn with_suffix(name: Seq<char>, suffix: Seq<char>) -> Seq<char> {
    let d = last_dot(name);
    name.take(d) + seq!['_'] + suffix + seq!['.'] + name.skip(d + 1)
}

/// There is only one last dot.
pub proof fn lemma_last_dot_unique(s: Seq<char>, d: int)
    requires
        is_last_dot(s, d),
    ensures
        last_dot(s) == d,
{
    let e = last_dot(s);
    assert(is_last_dot(s, e)) by {
        assert(exists|d0: int| is_last_dot(s, d0));
    }
    if e < d {
        assert(s[d] != '.');
    } else if e > d {
        assert(s[e] != '.');
    }
}

} // verus!
