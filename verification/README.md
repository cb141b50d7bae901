# videonsole

The deciding parts of a controller-driven film browser and player, written in
Verus and proved against their contracts.

## Layout

`src/` is the library. Each module states what it computes as spec functions
over sequences of characters and bytes, and each public function's `ensures`
says what it returns in terms of them.

| module | what it decides |
|---|---|
| `facts` | a calendar date from a day count, a clock face whose shape follows the film, a length said in words, a picture's size and its name |
| `digest` | MD5, written out, for the thumbnail cache's file names |
| `poster` | the shared thumbnail cache: file URIs, the cache folder, a thumbnail's name, PNG chunks and their text, whether a cached poster is still good, the size a poster is made at, and the PNG it is written as |
| `encoding` | a subtitle file's bytes as text: UTF-8, UTF-16 with a mark, Windows-1252 |
| `subtitles` | a cue's text with its marks taken off, which files beside a film are offered as its subtitles, and the name each is offered under |
| `cues` | the blocks of SubRip, WebVTT and SubStation files |
| `player` | subtitle tracks: which one is shown unasked, adding a file, the text of a dialogue line, a stream's name, where a track's cues come from |
| `resume` | the record of where films were left: newest first, one mark a film, an end to the list, and a line of it cut into its fields |
| `view` | where the light goes in the grid, the subtitle key's cycle, a menu row and where a menu's window stands, names and paths cut to fit, what the head counts, which films are worth knowing the facts of, what Back and the wheel do |
| `controls` | what a press does to the page: read first by whatever is open over it, then by the grid or the film; what is asked of the player, the folder and the panels; what is heard; where a folder stands in the walk, and where the light lands in a folder just read |
| `legend` | what the buttons do, and the pairs the legend shows for a page |
| `film` | the arrangement of a frame's planes, and the small copy the panels read |
| `command_line` | what the arguments and the keyboard ask for |
| `text`, `paths` | the characters of text, the parts of a path and the folder above it |

`pad` holds only the record of what a controller reports of itself, for the
listing of controllers; reading a controller is not part of this library.

The properties that span calls are stated as public proof functions whose
names begin with `law_`.

`tests/` runs the library on concrete values. `app/` is the program around
it: the arguments, the files on the disk, and the numbers of seconds and the
ratios that are floating point.
