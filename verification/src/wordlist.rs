//! The English words of BIP-39, and the proof that they are a list that can be used.
use vstd::prelude::*;

use crate::report::{
    filled_lines, is_plain_word, lemma_words_join, lemma_words_of_line, valid_wordlist, words_of,
};
use crate::text::{lex_less, pieces};

verus! {

/// The words that begin with a, one on a line.
pub const WORDS_A: &'static str = "\
    abandon\nability\nable\nabout\nabove\nabsent\nabsorb\nabstract\nabsurd\nabuse\naccess\n\
    accident\naccount\naccuse\nachieve\nacid\nacoustic\nacquire\nacross\nact\naction\nactor\n\
    actress\nactual\nadapt\nadd\naddict\naddress\nadjust\nadmit\nadult\nadvance\nadvice\n\
    aerobic\naffair\nafford\nafraid\nagain\nage\nagent\nagree\nahead\naim\nair\nairport\naisle\n\
    alarm\nalbum\nalcohol\nalert\nalien\nall\nalley\nallow\nalmost\nalone\nalpha\nalready\nalso\n\
    alter\nalways\namateur\namazing\namong\namount\namused\nanalyst\nanchor\nancient\nanger\n\
    angle\nangry\nanimal\nankle\nannounce\nannual\nanother\nanswer\nantenna\nantique\nanxiety\n\
    any\napart\napology\nappear\napple\napprove\napril\narch\narctic\narea\narena\nargue\narm\n\
    armed\narmor\narmy\naround\narrange\narrest\narrive\narrow\nart\nartefact\nartist\nartwork\n\
    ask\naspect\nassault\nasset\nassist\nassume\nasthma\nathlete\natom\nattack\nattend\n\
    attitude\nattract\nauction\naudit\naugust\naunt\nauthor\nauto\nautumn\naverage\navocado\n\
    avoid\nawake\naware\naway\nawesome\nawful\nawkward\naxis\n";

/// The words that begin with b, one on a line.
pub const WORDS_B: &'static str = "\
    baby\nbachelor\nbacon\nbadge\nbag\nbalance\nbalcony\nball\nbamboo\nbanana\nbanner\nbar\n\
    barely\nbargain\nbarrel\nbase\nbasic\nbasket\nbattle\nbeach\nbean\nbeauty\nbecause\nbecome\n\
    beef\nbefore\nbegin\nbehave\nbehind\nbelieve\nbelow\nbelt\nbench\nbenefit\nbest\nbetray\n\
    better\nbetween\nbeyond\nbicycle\nbid\nbike\nbind\nbiology\nbird\nbirth\nbitter\nblack\n\
    blade\nblame\nblanket\nblast\nbleak\nbless\nblind\nblood\nblossom\nblouse\nblue\nblur\n\
    blush\nboard\nboat\nbody\nboil\nbomb\nbone\nbonus\nbook\nboost\nborder\nboring\nborrow\n\
    boss\nbottom\nbounce\nbox\nboy\nbracket\nbrain\nbrand\nbrass\nbrave\nbread\nbreeze\nbrick\n\
    bridge\nbrief\nbright\nbring\nbrisk\nbroccoli\nbroken\nbronze\nbroom\nbrother\nbrown\nbrush\n\
    bubble\nbuddy\nbudget\nbuffalo\nbuild\nbulb\nbulk\nbullet\nbundle\nbunker\nburden\nburger\n\
    burst\nbus\nbusiness\nbusy\nbutter\nbuyer\nbuzz\n";

/// The words that begin with c, one on a line.
pub const WORDS_C: &'static str = "\
    cabbage\ncabin\ncable\ncactus\ncage\ncake\ncall\ncalm\ncamera\ncamp\ncan\ncanal\ncancel\n\
    candy\ncannon\ncanoe\ncanvas\ncanyon\ncapable\ncapital\ncaptain\ncar\ncarbon\ncard\ncargo\n\
    carpet\ncarry\ncart\ncase\ncash\ncasino\ncastle\ncasual\ncat\ncatalog\ncatch\ncategory\n\
    cattle\ncaught\ncause\ncaution\ncave\nceiling\ncelery\ncement\ncensus\ncentury\ncereal\n\
    certain\nchair\nchalk\nchampion\nchange\nchaos\nchapter\ncharge\nchase\nchat\ncheap\ncheck\n\
    cheese\nchef\ncherry\nchest\nchicken\nchief\nchild\nchimney\nchoice\nchoose\nchronic\n\
    chuckle\nchunk\nchurn\ncigar\ncinnamon\ncircle\ncitizen\ncity\ncivil\nclaim\nclap\nclarify\n\
    claw\nclay\nclean\nclerk\nclever\nclick\nclient\ncliff\nclimb\nclinic\nclip\nclock\nclog\n\
    close\ncloth\ncloud\nclown\nclub\nclump\ncluster\nclutch\ncoach\ncoast\ncoconut\ncode\n\
    coffee\ncoil\ncoin\ncollect\ncolor\ncolumn\ncombine\ncome\ncomfort\ncomic\ncommon\ncompany\n\
    concert\nconduct\nconfirm\ncongress\nconnect\nconsider\ncontrol\nconvince\ncook\ncool\n\
    copper\ncopy\ncoral\ncore\ncorn\ncorrect\ncost\ncotton\ncouch\ncountry\ncouple\ncourse\n\
    cousin\ncover\ncoyote\ncrack\ncradle\ncraft\ncram\ncrane\ncrash\ncrater\ncrawl\ncrazy\n\
    cream\ncredit\ncreek\ncrew\ncricket\ncrime\ncrisp\ncritic\ncrop\ncross\ncrouch\ncrowd\n\
    crucial\ncruel\ncruise\ncrumble\ncrunch\ncrush\ncry\ncrystal\ncube\nculture\ncup\ncupboard\n\
    curious\ncurrent\ncurtain\ncurve\ncushion\ncustom\ncute\ncycle\n";

/// The words that begin with d, one on a line.
pub const WORDS_D: &'static str = "\
    dad\ndamage\ndamp\ndance\ndanger\ndaring\ndash\ndaughter\ndawn\nday\ndeal\ndebate\ndebris\n\
    decade\ndecember\ndecide\ndecline\ndecorate\ndecrease\ndeer\ndefense\ndefine\ndefy\ndegree\n\
    delay\ndeliver\ndemand\ndemise\ndenial\ndentist\ndeny\ndepart\ndepend\ndeposit\ndepth\n\
    deputy\nderive\ndescribe\ndesert\ndesign\ndesk\ndespair\ndestroy\ndetail\ndetect\ndevelop\n\
    device\ndevote\ndiagram\ndial\ndiamond\ndiary\ndice\ndiesel\ndiet\ndiffer\ndigital\ndignity\n\
    dilemma\ndinner\ndinosaur\ndirect\ndirt\ndisagree\ndiscover\ndisease\ndish\ndismiss\n\
    disorder\ndisplay\ndistance\ndivert\ndivide\ndivorce\ndizzy\ndoctor\ndocument\ndog\ndoll\n\
    dolphin\ndomain\ndonate\ndonkey\ndonor\ndoor\ndose\ndouble\ndove\ndraft\ndragon\ndrama\n\
    drastic\ndraw\ndream\ndress\ndrift\ndrill\ndrink\ndrip\ndrive\ndrop\ndrum\ndry\nduck\ndumb\n\
    dune\nduring\ndust\ndutch\nduty\ndwarf\ndynamic\n";

/// The words that begin with e, one on a line.
pub const WORDS_E: &'static str = "\
    eager\neagle\nearly\nearn\nearth\neasily\neast\neasy\necho\necology\neconomy\nedge\nedit\n\
    educate\neffort\negg\neight\neither\nelbow\nelder\nelectric\nelegant\nelement\nelephant\n\
    elevator\nelite\nelse\nembark\nembody\nembrace\nemerge\nemotion\nemploy\nempower\nempty\n\
    enable\nenact\nend\nendless\nendorse\nenemy\nenergy\nenforce\nengage\nengine\nenhance\n\
    enjoy\nenlist\nenough\nenrich\nenroll\nensure\nenter\nentire\nentry\nenvelope\nepisode\n\
    equal\nequip\nera\nerase\nerode\nerosion\nerror\nerupt\nescape\nessay\nessence\nestate\n\
    eternal\nethics\nevidence\nevil\nevoke\nevolve\nexact\nexample\nexcess\nexchange\nexcite\n\
    exclude\nexcuse\nexecute\nexercise\nexhaust\nexhibit\nexile\nexist\nexit\nexotic\nexpand\n\
    expect\nexpire\nexplain\nexpose\nexpress\nextend\nextra\neye\neyebrow\n";

/// The words that begin with f, one on a line.
pub const WORDS_F: &'static str = "\
    fabric\nface\nfaculty\nfade\nfaint\nfaith\nfall\nfalse\nfame\nfamily\nfamous\nfan\nfancy\n\
    fantasy\nfarm\nfashion\nfat\nfatal\nfather\nfatigue\nfault\nfavorite\nfeature\nfebruary\n\
    federal\nfee\nfeed\nfeel\nfemale\nfence\nfestival\nfetch\nfever\nfew\nfiber\nfiction\nfield\n\
    figure\nfile\nfilm\nfilter\nfinal\nfind\nfine\nfinger\nfinish\nfire\nfirm\nfirst\nfiscal\n\
    fish\nfit\nfitness\nfix\nflag\nflame\nflash\nflat\nflavor\nflee\nflight\nflip\nfloat\nflock\n\
    floor\nflower\nfluid\nflush\nfly\nfoam\nfocus\nfog\nfoil\nfold\nfollow\nfood\nfoot\nforce\n\
    forest\nforget\nfork\nfortune\nforum\nforward\nfossil\nfoster\nfound\nfox\nfragile\nframe\n\
    frequent\nfresh\nfriend\nfringe\nfrog\nfront\nfrost\nfrown\nfrozen\nfruit\nfuel\nfun\nfunny\n\
    furnace\nfury\nfuture\n";

/// The words that begin with g, one on a line.
pub const WORDS_G: &'static str = "\
    gadget\ngain\ngalaxy\ngallery\ngame\ngap\ngarage\ngarbage\ngarden\ngarlic\ngarment\ngas\n\
    gasp\ngate\ngather\ngauge\ngaze\ngeneral\ngenius\ngenre\ngentle\ngenuine\ngesture\nghost\n\
    giant\ngift\ngiggle\nginger\ngiraffe\ngirl\ngive\nglad\nglance\nglare\nglass\nglide\n\
    glimpse\nglobe\ngloom\nglory\nglove\nglow\nglue\ngoat\ngoddess\ngold\ngood\ngoose\ngorilla\n\
    gospel\ngossip\ngovern\ngown\ngrab\ngrace\ngrain\ngrant\ngrape\ngrass\ngravity\ngreat\n\
    green\ngrid\ngrief\ngrit\ngrocery\ngroup\ngrow\ngrunt\nguard\nguess\nguide\nguilt\nguitar\n\
    gun\ngym\n";

/// The words that begin with h, one on a line.
pub const WORDS_H: &'static str = "\
    habit\nhair\nhalf\nhammer\nhamster\nhand\nhappy\nharbor\nhard\nharsh\nharvest\nhat\nhave\n\
    hawk\nhazard\nhead\nhealth\nheart\nheavy\nhedgehog\nheight\nhello\nhelmet\nhelp\nhen\nhero\n\
    hidden\nhigh\nhill\nhint\nhip\nhire\nhistory\nhobby\nhockey\nhold\nhole\nholiday\nhollow\n\
    home\nhoney\nhood\nhope\nhorn\nhorror\nhorse\nhospital\nhost\nhotel\nhour\nhover\nhub\nhuge\n\
    human\nhumble\nhumor\nhundred\nhungry\nhunt\nhurdle\nhurry\nhurt\nhusband\nhybrid\n";

/// The words that begin with i, one on a line.
pub const WORDS_I: &'static str = "\
    ice\nicon\nidea\nidentify\nidle\nignore\nill\nillegal\nillness\nimage\nimitate\nimmense\n\
    immune\nimpact\nimpose\nimprove\nimpulse\ninch\ninclude\nincome\nincrease\nindex\nindicate\n\
    indoor\nindustry\ninfant\ninflict\ninform\ninhale\ninherit\ninitial\ninject\ninjury\ninmate\n\
    inner\ninnocent\ninput\ninquiry\ninsane\ninsect\ninside\ninspire\ninstall\nintact\ninterest\n\
    into\ninvest\ninvite\ninvolve\niron\nisland\nisolate\nissue\nitem\nivory\n";

/// The words that begin with j, one on a line.
pub const WORDS_J: &'static str = "\
    jacket\njaguar\njar\njazz\njealous\njeans\njelly\njewel\njob\njoin\njoke\njourney\njoy\n\
    judge\njuice\njump\njungle\njunior\njunk\njust\n";

/// The words that begin with k, one on a line.
pub const WORDS_K: &'static str = "\
    kangaroo\nkeen\nkeep\nketchup\nkey\nkick\nkid\nkidney\nkind\nkingdom\nkiss\nkit\nkitchen\n\
    kite\nkitten\nkiwi\nknee\nknife\nknock\nknow\n";

/// The words that begin with l, one on a line.
pub const WORDS_L: &'static str = "\
    lab\nlabel\nlabor\nladder\nlady\nlake\nlamp\nlanguage\nlaptop\nlarge\nlater\nlatin\nlaugh\n\
    laundry\nlava\nlaw\nlawn\nlawsuit\nlayer\nlazy\nleader\nleaf\nlearn\nleave\nlecture\nleft\n\
    leg\nlegal\nlegend\nleisure\nlemon\nlend\nlength\nlens\nleopard\nlesson\nletter\nlevel\n\
    liar\nliberty\nlibrary\nlicense\nlife\nlift\nlight\nlike\nlimb\nlimit\nlink\nlion\nliquid\n\
    list\nlittle\nlive\nlizard\nload\nloan\nlobster\nlocal\nlock\nlogic\nlonely\nlong\nloop\n\
    lottery\nloud\nlounge\nlove\nloyal\nlucky\nluggage\nlumber\nlunar\nlunch\nluxury\nlyrics\n";

/// The words that begin with m, one on a line.
pub const WORDS_M: &'static str = "\
    machine\nmad\nmagic\nmagnet\nmaid\nmail\nmain\nmajor\nmake\nmammal\nman\nmanage\nmandate\n\
    mango\nmansion\nmanual\nmaple\nmarble\nmarch\nmargin\nmarine\nmarket\nmarriage\nmask\nmass\n\
    master\nmatch\nmaterial\nmath\nmatrix\nmatter\nmaximum\nmaze\nmeadow\nmean\nmeasure\nmeat\n\
    mechanic\nmedal\nmedia\nmelody\nmelt\nmember\nmemory\nmention\nmenu\nmercy\nmerge\nmerit\n\
    merry\nmesh\nmessage\nmetal\nmethod\nmiddle\nmidnight\nmilk\nmillion\nmimic\nmind\nminimum\n\
    minor\nminute\nmiracle\nmirror\nmisery\nmiss\nmistake\nmix\nmixed\nmixture\nmobile\nmodel\n\
    modify\nmom\nmoment\nmonitor\nmonkey\nmonster\nmonth\nmoon\nmoral\nmore\nmorning\nmosquito\n\
    mother\nmotion\nmotor\nmountain\nmouse\nmove\nmovie\nmuch\nmuffin\nmule\nmultiply\nmuscle\n\
    museum\nmushroom\nmusic\nmust\nmutual\nmyself\nmystery\nmyth\n";

/// The words that begin with n, one on a line.
pub const WORDS_N: &'static str = "\
    naive\nname\nnapkin\nnarrow\nnasty\nnation\nnature\nnear\nneck\nneed\nnegative\nneglect\n\
    neither\nnephew\nnerve\nnest\nnet\nnetwork\nneutral\nnever\nnews\nnext\nnice\nnight\nnoble\n\
    noise\nnominee\nnoodle\nnormal\nnorth\nnose\nnotable\nnote\nnothing\nnotice\nnovel\nnow\n\
    nuclear\nnumber\nnurse\nnut\n";

/// The words that begin with o, one on a line.
pub const WORDS_O: &'static str = "\
    oak\nobey\nobject\noblige\nobscure\nobserve\nobtain\nobvious\noccur\nocean\noctober\nodor\n\
    off\noffer\noffice\noften\noil\nokay\nold\nolive\nolympic\nomit\nonce\none\nonion\nonline\n\
    only\nopen\nopera\nopinion\noppose\noption\norange\norbit\norchard\norder\nordinary\norgan\n\
    orient\noriginal\norphan\nostrich\nother\noutdoor\nouter\noutput\noutside\noval\noven\nover\n\
    own\nowner\noxygen\noyster\nozone\n";

/// The words that begin with p, one on a line.
pub const WORDS_P: &'static str = "\
    pact\npaddle\npage\npair\npalace\npalm\npanda\npanel\npanic\npanther\npaper\nparade\nparent\n\
    park\nparrot\nparty\npass\npatch\npath\npatient\npatrol\npattern\npause\npave\npayment\n\
    peace\npeanut\npear\npeasant\npelican\npen\npenalty\npencil\npeople\npepper\nperfect\n\
    permit\nperson\npet\nphone\nphoto\nphrase\nphysical\npiano\npicnic\npicture\npiece\npig\n\
    pigeon\npill\npilot\npink\npioneer\npipe\npistol\npitch\npizza\nplace\nplanet\nplastic\n\
    plate\nplay\nplease\npledge\npluck\nplug\nplunge\npoem\npoet\npoint\npolar\npole\npolice\n\
    pond\npony\npool\npopular\nportion\nposition\npossible\npost\npotato\npottery\npoverty\n\
    powder\npower\npractice\npraise\npredict\nprefer\nprepare\npresent\npretty\nprevent\nprice\n\
    pride\nprimary\nprint\npriority\nprison\nprivate\nprize\nproblem\nprocess\nproduce\nprofit\n\
    program\nproject\npromote\nproof\nproperty\nprosper\nprotect\nproud\nprovide\npublic\n\
    pudding\npull\npulp\npulse\npumpkin\npunch\npupil\npuppy\npurchase\npurity\npurpose\npurse\n\
    push\nput\npuzzle\npyramid\n";

/// The words that begin with q, one on a line.
pub const WORDS_Q: &'static str = "\
    quality\nquantum\nquarter\nquestion\nquick\nquit\nquiz\nquote\n";

/// The words that begin with r, one on a line.
pub const WORDS_R: &'static str = "\
    rabbit\nraccoon\nrace\nrack\nradar\nradio\nrail\nrain\nraise\nrally\nramp\nranch\nrandom\n\
    range\nrapid\nrare\nrate\nrather\nraven\nraw\nrazor\nready\nreal\nreason\nrebel\nrebuild\n\
    recall\nreceive\nrecipe\nrecord\nrecycle\nreduce\nreflect\nreform\nrefuse\nregion\nregret\n\
    regular\nreject\nrelax\nrelease\nrelief\nrely\nremain\nremember\nremind\nremove\nrender\n\
    renew\nrent\nreopen\nrepair\nrepeat\nreplace\nreport\nrequire\nrescue\nresemble\nresist\n\
    resource\nresponse\nresult\nretire\nretreat\nreturn\nreunion\nreveal\nreview\nreward\n\
    rhythm\nrib\nribbon\nrice\nrich\nride\nridge\nrifle\nright\nrigid\nring\nriot\nripple\nrisk\n\
    ritual\nrival\nriver\nroad\nroast\nrobot\nrobust\nrocket\nromance\nroof\nrookie\nroom\nrose\n\
    rotate\nrough\nround\nroute\nroyal\nrubber\nrude\nrug\nrule\nrun\nrunway\nrural\n";

/// The words that begin with s, one on a line.
pub const WORDS_S: &'static str = "\
    sad\nsaddle\nsadness\nsafe\nsail\nsalad\nsalmon\nsalon\nsalt\nsalute\nsame\nsample\nsand\n\
    satisfy\nsatoshi\nsauce\nsausage\nsave\nsay\nscale\nscan\nscare\nscatter\nscene\nscheme\n\
    school\nscience\nscissors\nscorpion\nscout\nscrap\nscreen\nscript\nscrub\nsea\nsearch\n\
    season\nseat\nsecond\nsecret\nsection\nsecurity\nseed\nseek\nsegment\nselect\nsell\nseminar\n\
    senior\nsense\nsentence\nseries\nservice\nsession\nsettle\nsetup\nseven\nshadow\nshaft\n\
    shallow\nshare\nshed\nshell\nsheriff\nshield\nshift\nshine\nship\nshiver\nshock\nshoe\n\
    shoot\nshop\nshort\nshoulder\nshove\nshrimp\nshrug\nshuffle\nshy\nsibling\nsick\nside\n\
    siege\nsight\nsign\nsilent\nsilk\nsilly\nsilver\nsimilar\nsimple\nsince\nsing\nsiren\n\
    sister\nsituate\nsix\nsize\nskate\nsketch\nski\nskill\nskin\nskirt\nskull\nslab\nslam\n\
    sleep\nslender\nslice\nslide\nslight\nslim\nslogan\nslot\nslow\nslush\nsmall\nsmart\nsmile\n\
    smoke\nsmooth\nsnack\nsnake\nsnap\nsniff\nsnow\nsoap\nsoccer\nsocial\nsock\nsoda\nsoft\n\
    solar\nsoldier\nsolid\nsolution\nsolve\nsomeone\nsong\nsoon\nsorry\nsort\nsoul\nsound\nsoup\n\
    source\nsouth\nspace\nspare\nspatial\nspawn\nspeak\nspecial\nspeed\nspell\nspend\nsphere\n\
    spice\nspider\nspike\nspin\nspirit\nsplit\nspoil\nsponsor\nspoon\nsport\nspot\nspray\n\
    spread\nspring\nspy\nsquare\nsqueeze\nsquirrel\nstable\nstadium\nstaff\nstage\nstairs\n\
    stamp\nstand\nstart\nstate\nstay\nsteak\nsteel\nstem\nstep\nstereo\nstick\nstill\nsting\n\
    stock\nstomach\nstone\nstool\nstory\nstove\nstrategy\nstreet\nstrike\nstrong\nstruggle\n\
    student\nstuff\nstumble\nstyle\nsubject\nsubmit\nsubway\nsuccess\nsuch\nsudden\nsuffer\n\
    sugar\nsuggest\nsuit\nsummer\nsun\nsunny\nsunset\nsuper\nsupply\nsupreme\nsure\nsurface\n\
    surge\nsurprise\nsurround\nsurvey\nsuspect\nsustain\nswallow\nswamp\nswap\nswarm\nswear\n\
    sweet\nswift\nswim\nswing\nswitch\nsword\nsymbol\nsymptom\nsyrup\nsystem\n";

/// The words that begin with t, one on a line.
pub const WORDS_T: &'static str = "\
    table\ntackle\ntag\ntail\ntalent\ntalk\ntank\ntape\ntarget\ntask\ntaste\ntattoo\ntaxi\n\
    teach\nteam\ntell\nten\ntenant\ntennis\ntent\nterm\ntest\ntext\nthank\nthat\ntheme\nthen\n\
    theory\nthere\nthey\nthing\nthis\nthought\nthree\nthrive\nthrow\nthumb\nthunder\nticket\n\
    tide\ntiger\ntilt\ntimber\ntime\ntiny\ntip\ntired\ntissue\ntitle\ntoast\ntobacco\ntoday\n\
    toddler\ntoe\ntogether\ntoilet\ntoken\ntomato\ntomorrow\ntone\ntongue\ntonight\ntool\ntooth\n\
    top\ntopic\ntopple\ntorch\ntornado\ntortoise\ntoss\ntotal\ntourist\ntoward\ntower\ntown\n\
    toy\ntrack\ntrade\ntraffic\ntragic\ntrain\ntransfer\ntrap\ntrash\ntravel\ntray\ntreat\ntree\n\
    trend\ntrial\ntribe\ntrick\ntrigger\ntrim\ntrip\ntrophy\ntrouble\ntruck\ntrue\ntruly\n\
    trumpet\ntrust\ntruth\ntry\ntube\ntuition\ntumble\ntuna\ntunnel\nturkey\nturn\nturtle\n\
    twelve\ntwenty\ntwice\ntwin\ntwist\ntwo\ntype\ntypical\n";

/// The words that begin with u, one on a line.
pub const WORDS_U: &'static str = "\
    ugly\numbrella\nunable\nunaware\nuncle\nuncover\nunder\nundo\nunfair\nunfold\nunhappy\n\
    uniform\nunique\nunit\nuniverse\nunknown\nunlock\nuntil\nunusual\nunveil\nupdate\nupgrade\n\
    uphold\nupon\nupper\nupset\nurban\nurge\nusage\nuse\nused\nuseful\nuseless\nusual\nutility\n";

/// The words that begin with v, one on a line.
pub const WORDS_V: &'static str = "\
    vacant\nvacuum\nvague\nvalid\nvalley\nvalve\nvan\nvanish\nvapor\nvarious\nvast\nvault\n\
    vehicle\nvelvet\nvendor\nventure\nvenue\nverb\nverify\nversion\nvery\nvessel\nveteran\n\
    viable\nvibrant\nvicious\nvictory\nvideo\nview\nvillage\nvintage\nviolin\nvirtual\nvirus\n\
    visa\nvisit\nvisual\nvital\nvivid\nvocal\nvoice\nvoid\nvolcano\nvolume\nvote\nvoyage\n";

/// The words that begin with w, one on a line.
pub const WORDS_W: &'static str = "\
    wage\nwagon\nwait\nwalk\nwall\nwalnut\nwant\nwarfare\nwarm\nwarrior\nwash\nwasp\nwaste\n\
    water\nwave\nway\nwealth\nweapon\nwear\nweasel\nweather\nweb\nwedding\nweekend\nweird\n\
    welcome\nwest\nwet\nwhale\nwhat\nwheat\nwheel\nwhen\nwhere\nwhip\nwhisper\nwide\nwidth\n\
    wife\nwild\nwill\nwin\nwindow\nwine\nwing\nwink\nwinner\nwinter\nwire\nwisdom\nwise\nwish\n\
    witness\nwolf\nwoman\nwonder\nwood\nwool\nword\nwork\nworld\nworry\nworth\nwrap\nwreck\n\
    wrestle\nwrist\nwrite\nwrong\n";

/// The words that begin with y, one on a line.
pub const WORDS_Y: &'static str = "\
    yard\nyear\nyellow\nyou\nyoung\nyouth\n";

/// The words that begin with z, one on a line.
pub const WORDS_Z: &'static str = "\
    zebra\nzero\nzone\nzoo\n";

// ---- reading the list ---------------------------------------------------------------------

spec fn is_letter(c: char) -> bool {
    'a' <= c <= 'z'
}

/// Whether a word of three to eight letters, the first of them `c`, stands in `s` from `a` on,
/// and its line ends in front of `b`.
spec fn line_at(s: Seq<char>, c: char, a: int, b: int) -> bool {
    &&& a + 4 <= b <= a + 9
    &&& b <= s.len()
    &&& s[a] == c
    &&& is_letter(s[a])
    &&& is_letter(s[a + 1])
    &&& is_letter(s[a + 2])
    &&& a + 4 < b ==> is_letter(s[a + 3])
    &&& a + 5 < b ==> is_letter(s[a + 4])
    &&& a + 6 < b ==> is_letter(s[a + 5])
    &&& a + 7 < b ==> is_letter(s[a + 6])
    &&& a + 8 < b ==> is_letter(s[a + 7])
    &&& s[b - 1] == '\n'
}

/// Whether the line at `p` comes before the line at `a` by its first four characters. No two
/// words of the list agree in all of them.
spec fn comes_before(s: Seq<char>, p: int, a: int) -> bool {
    s[p] < s[a] || (s[p] == s[a] && (s[p + 1] < s[a + 1] || (s[p + 1] == s[a + 1] && (s[p + 2]
        < s[a + 2] || (s[p + 2] == s[a + 2] && s[p + 3] < s[a + 3])))))
}

/// Words in ascending order, of small letters only, that begin with letters from `c` to `d`.
spec fn in_order(w: Seq<Seq<char>>, c: char, d: char) -> bool {
    &&& forall|i: int|
        0 <= i < w.len() ==> is_plain_word(#[trigger] w[i]) && w[i].len() > 0 && c <= w[i][0] <= d
    &&& forall|i: int| 0 <= i < w.len() - 1 ==> lex_less(#[trigger] w[i], w[i + 1])
}

/// Whether `s` up to `a` is `n` lines of words that begin with `c`, the last of them at `p`.
#[verifier::opaque]
spec fn listed(s: Seq<char>, c: char, n: int, p: int, a: int) -> bool {
    let w = words_of(s.take(a));
    &&& 0 <= p <= a <= s.len()
    &&& a > 0 ==> s[a - 1] == '\n'
    &&& w.len() == n
    &&& in_order(w, c, c)
    &&& n > 0 ==> p + 3 < a && w.last() == s.subrange(p, a - 1)
}

/// Whether `s` is `n` lines of words that begin with `c`.
spec fn all_listed(s: Seq<char>, c: char, n: int) -> bool {
    &&& s.len() > 0 ==> s.last() == '\n'
    &&& words_of(s).len() == n
    &&& in_order(words_of(s), c, c)
}

/// Nothing is listed in front of the first line.
proof fn lemma_none(s: Seq<char>, c: char)
    ensures
        listed(s, c, 0, 0, 0),
{
    reveal(listed);
    lemma_no_words();
    assert(s.take(0) =~= Seq::<char>::empty());
}

/// Where the lines go to the end, all of `s` is listed.
proof fn lemma_all(s: Seq<char>, c: char, n: int, p: int)
    requires
        listed(s, c, n, p, s.len() as int),
    ensures
        all_listed(s, c, n),
{
    reveal(listed);
    assert(s.take(s.len() as int) =~= s);
}

/// What stands before a word by its first four characters lies below it.
proof fn lemma_below(s: Seq<char>, p: int, a: int, b: int)
    requires
        0 <= p,
        p + 3 < a,
        s[a - 1] == '\n',
        is_plain_word(s.subrange(p, a - 1)),
        a + 4 <= b <= s.len(),
        s[b - 1] == '\n',
        is_plain_word(s.subrange(a, b - 1)),
        comes_before(s, p, a),
    ensures
        lex_less(s.subrange(p, a - 1), s.subrange(a, b - 1)),
{
    let v = s.subrange(p, a - 1);
    let w = s.subrange(a, b - 1);
    reveal_with_fuel(lex_less, 5);
    assert(v[0] == s[p] && v[1] == s[p + 1] && v[2] == s[p + 2]);
    assert(w[0] == s[a] && w[1] == s[a + 1] && w[2] == s[a + 2]);
    if v.len() > 3 {
        assert(v[3] == s[p + 3]);
    }
    if w.len() > 3 {
        assert(w[3] == s[a + 3]);
    }
}

/// One more line: behind `n` lines, the last of which begins at `p`, it goes from `a` to `b`.
proof fn lemma_line(s: Seq<char>, c: char, n: int, p: int, a: int, b: int)
    requires
        listed(s, c, n, p, a),
        line_at(s, c, a, b),
        n > 0 ==> comes_before(s, p, a),
    ensures
        listed(s, c, n + 1, a, b),
        b == s.len() ==> all_listed(s, c, n + 1),
{
    reveal(listed);
    let t = s.take(a);
    let word = s.subrange(a, b - 1);
    assert forall|i: int| 0 <= i < word.len() implies is_letter(#[trigger] word[i]) by {
        assert(word[i] == s[a + i]);
    }
    lemma_words_of_line(word);
    lemma_words_join(t, word.push('\n'));
    assert(t + word.push('\n') =~= s.take(b));
    let u = words_of(t);
    let w = words_of(s.take(b));
    assert(w == u.push(word));
    if n > 0 {
        assert(is_plain_word(u[n - 1]));
        lemma_below(s, p, a, b);
    }
    assert forall|i: int| 0 <= i < w.len() - 1 implies lex_less(#[trigger] w[i], w[i + 1]) by {
        if i < n - 1 {
            assert(lex_less(u[i], u[i + 1]));
        }
    }
    assert forall|i: int| 0 <= i < w.len() implies is_plain_word(#[trigger] w[i]) && w[i].len() > 0
        && c <= w[i][0] <= c by {
        if i < n {
            assert(w[i] == u[i]);
        }
    }
    if b == s.len() {
        lemma_all(s, c, n + 1, a);
    }
}

/// Eight more lines: behind `n` lines, the last of which begins at `p`, they begin at `a`, `b`, `d`
/// and so on, and the last ends in front of `j`.
proof fn lemma_row(
    s: Seq<char>,
    c: char,
    n: int,
    p: int,
    a: int,
    b: int,
    d: int,
    e: int,
    f: int,
    g: int,
    h: int,
    i: int,
    j: int,
)
    requires
        listed(s, c, n, p, a),
        n >= 0,
        line_at(s, c, a, b) && (n > 0 ==> comes_before(s, p, a)),
        line_at(s, c, b, d) && comes_before(s, a, b),
        line_at(s, c, d, e) && comes_before(s, b, d),
        line_at(s, c, e, f) && comes_before(s, d, e),
        line_at(s, c, f, g) && comes_before(s, e, f),
        line_at(s, c, g, h) && comes_before(s, f, g),
        line_at(s, c, h, i) && comes_before(s, g, h),
        line_at(s, c, i, j) && comes_before(s, h, i),
    ensures
        listed(s, c, n + 8, i, j),
        j == s.len() ==> all_listed(s, c, n + 8),
{
    lemma_line(s, c, n, p, a, b);
    lemma_line(s, c, n + 1, a, b, d);
    lemma_line(s, c, n + 2, b, d, e);
    lemma_line(s, c, n + 3, d, e, f);
    lemma_line(s, c, n + 4, e, f, g);
    lemma_line(s, c, n + 5, f, g, h);
    lemma_line(s, c, n + 6, g, h, i);
    lemma_line(s, c, n + 7, h, i, j);
}

/// No text, no words.
proof fn lemma_no_words()
    ensures
        words_of(Seq::<char>::empty()) == Seq::<Seq<char>>::empty(),
{
    let none = Seq::<char>::empty();
    reveal_with_fuel(filled_lines, 2);
    assert(pieces(none, '\n') =~= seq![none]);
    assert(seq![none].drop_last() =~= Seq::<Seq<char>>::empty());
}

/// Whether `t` is `n` lines of words in order, none of which begins with a letter behind `d`.
#[verifier::opaque]
spec fn gathered(t: Seq<char>, n: int, d: char) -> bool {
    &&& t.len() > 0 ==> t.last() == '\n'
    &&& words_of(t).len() == n
    &&& in_order(words_of(t), 'a', d)
}

proof fn lemma_gathered_none()
    ensures
        gathered(Seq::<char>::empty(), 0, 'a'),
{
    reveal(gathered);
    lemma_no_words();
}

/// Lines that begin with a later letter go behind.
proof fn lemma_gathered(t: Seq<char>, s: Seq<char>, n: int, m: int, d: char, c: char)
    requires
        gathered(t, n, d),
        all_listed(s, c, m),
        n == 0 || d < c,
        'a' <= c,
    ensures
        gathered(t + s, n + m, c),
{
    reveal(gathered);
    lemma_words_join(t, s);
    let u = words_of(t);
    let v = words_of(s);
    let w = words_of(t + s);
    assert forall|i: int| 0 <= i < w.len() implies is_plain_word(#[trigger] w[i]) && w[i].len() > 0
        && 'a' <= w[i][0] <= c by {
        if i < u.len() {
            assert(w[i] == u[i]);
        } else {
            assert(w[i] == v[i - u.len()]);
        }
    }
    assert forall|i: int| 0 <= i < w.len() - 1 implies lex_less(#[trigger] w[i], w[i + 1]) by {
        if i < u.len() - 1 {
            assert(lex_less(u[i], u[i + 1]));
        } else if i >= u.len() {
            let k = i - u.len();
            assert(lex_less(v[k], v[k + 1]));
        } else {
            assert(w[i] == u[i] && w[i + 1] == v[0]);
        }
    }
    if s.len() > 0 {
        assert((t + s).last() == s.last());
    } else {
        assert(t + s =~= t);
    }
}

/// The words that begin with a: 136 of them.
proof fn lemma_words_a()
    ensures
        all_listed(WORDS_A@, 'a', 136),
{
    reveal_strlit(
        "\
        abandon\nability\nable\nabout\nabove\nabsent\nabsorb\nabstract\nabsurd\nabuse\naccess\n\
        accident\naccount\naccuse\nachieve\nacid\nacoustic\nacquire\nacross\nact\naction\nactor\n\
        actress\nactual\nadapt\nadd\naddict\naddress\nadjust\nadmit\nadult\nadvance\nadvice\n\
        aerobic\naffair\nafford\nafraid\nagain\nage\nagent\nagree\nahead\naim\nair\nairport\n\
        aisle\nalarm\nalbum\nalcohol\nalert\nalien\nall\nalley\nallow\nalmost\nalone\nalpha\n\
        already\nalso\nalter\nalways\namateur\namazing\namong\namount\namused\nanalyst\nanchor\n\
        ancient\nanger\nangle\nangry\nanimal\nankle\nannounce\nannual\nanother\nanswer\nantenna\n\
        antique\nanxiety\nany\napart\napology\nappear\napple\napprove\napril\narch\narctic\n\
        area\narena\nargue\narm\narmed\narmor\narmy\naround\narrange\narrest\narrive\narrow\n\
        art\nartefact\nartist\nartwork\nask\naspect\nassault\nasset\nassist\nassume\nasthma\n\
        athlete\natom\nattack\nattend\nattitude\nattract\nauction\naudit\naugust\naunt\nauthor\n\
        auto\nautumn\naverage\navocado\navoid\nawake\naware\naway\nawesome\nawful\nawkward\n\
        axis\n",
    );
    let s = WORDS_A@;
    lemma_none(s, 'a');
    lemma_row(s, 'a', 0, 0, 0, 8, 16, 21, 27, 33, 40, 47, 56);
    lemma_row(s, 'a', 8, 47, 56, 63, 69, 76, 85, 93, 100, 108, 113);
    lemma_row(s, 'a', 16, 108, 113, 122, 130, 137, 141, 148, 154, 162, 169);
    lemma_row(s, 'a', 24, 162, 169, 175, 179, 186, 194, 201, 207, 213, 221);
    lemma_row(s, 'a', 32, 213, 221, 228, 236, 243, 250, 257, 263, 267, 273);
    lemma_row(s, 'a', 40, 267, 273, 279, 285, 289, 293, 301, 307, 313, 319);
    lemma_row(s, 'a', 48, 313, 319, 327, 333, 339, 343, 349, 355, 362, 368);
    lemma_row(s, 'a', 56, 362, 368, 374, 382, 387, 393, 400, 408, 416, 422);
    lemma_row(s, 'a', 64, 416, 422, 429, 436, 444, 451, 459, 465, 471, 477);
    lemma_row(s, 'a', 72, 471, 477, 484, 490, 499, 506, 514, 521, 529, 537);
    lemma_row(s, 'a', 80, 529, 537, 545, 549, 555, 563, 570, 576, 584, 590);
    lemma_row(s, 'a', 88, 584, 590, 595, 602, 607, 613, 619, 623, 629, 635);
    lemma_row(s, 'a', 96, 629, 635, 640, 647, 655, 662, 669, 675, 679, 688);
    lemma_row(s, 'a', 104, 679, 688, 695, 703, 707, 714, 722, 728, 735, 742);
    lemma_row(s, 'a', 112, 735, 742, 749, 757, 762, 769, 776, 785, 793, 801);
    lemma_row(s, 'a', 120, 793, 801, 807, 814, 819, 826, 831, 838, 846, 854);
    lemma_row(s, 'a', 128, 846, 854, 860, 866, 872, 877, 885, 891, 899, 904);
}

/// The words that begin with b: 117 of them.
proof fn lemma_words_b()
    ensures
        all_listed(WORDS_B@, 'b', 117),
{
    reveal_strlit(
        "\
        baby\nbachelor\nbacon\nbadge\nbag\nbalance\nbalcony\nball\nbamboo\nbanana\nbanner\nbar\n\
        barely\nbargain\nbarrel\nbase\nbasic\nbasket\nbattle\nbeach\nbean\nbeauty\nbecause\n\
        become\nbeef\nbefore\nbegin\nbehave\nbehind\nbelieve\nbelow\nbelt\nbench\nbenefit\nbest\n\
        betray\nbetter\nbetween\nbeyond\nbicycle\nbid\nbike\nbind\nbiology\nbird\nbirth\nbitter\n\
        black\nblade\nblame\nblanket\nblast\nbleak\nbless\nblind\nblood\nblossom\nblouse\nblue\n\
        blur\nblush\nboard\nboat\nbody\nboil\nbomb\nbone\nbonus\nbook\nboost\nborder\nboring\n\
        borrow\nboss\nbottom\nbounce\nbox\nboy\nbracket\nbrain\nbrand\nbrass\nbrave\nbread\n\
        breeze\nbrick\nbridge\nbrief\nbright\nbring\nbrisk\nbroccoli\nbroken\nbronze\nbroom\n\
        brother\nbrown\nbrush\nbubble\nbuddy\nbudget\nbuffalo\nbuild\nbulb\nbulk\nbullet\n\
        bundle\nbunker\nburden\nburger\nburst\nbus\nbusiness\nbusy\nbutter\nbuyer\nbuzz\n",
    );
    let s = WORDS_B@;
    lemma_none(s, 'b');
    lemma_row(s, 'b', 0, 0, 0, 5, 14, 20, 26, 30, 38, 46, 51);
    lemma_row(s, 'b', 8, 46, 51, 58, 65, 72, 76, 83, 91, 98, 103);
    lemma_row(s, 'b', 16, 98, 103, 109, 116, 123, 129, 134, 141, 149, 156);
    lemma_row(s, 'b', 24, 149, 156, 161, 168, 174, 181, 188, 196, 202, 207);
    lemma_row(s, 'b', 32, 202, 207, 213, 221, 226, 233, 240, 248, 255, 263);
    lemma_row(s, 'b', 40, 255, 263, 267, 272, 277, 285, 290, 296, 303, 309);
    lemma_row(s, 'b', 48, 303, 309, 315, 321, 329, 335, 341, 347, 353, 359);
    lemma_row(s, 'b', 56, 353, 359, 367, 374, 379, 384, 390, 396, 401, 406);
    lemma_row(s, 'b', 64, 401, 406, 411, 416, 421, 427, 432, 438, 445, 452);
    lemma_row(s, 'b', 72, 445, 452, 459, 464, 471, 478, 482, 486, 494, 500);
    lemma_row(s, 'b', 80, 494, 500, 506, 512, 518, 524, 531, 537, 544, 550);
    lemma_row(s, 'b', 88, 544, 550, 557, 563, 569, 578, 585, 592, 598, 606);
    lemma_row(s, 'b', 96, 598, 606, 612, 618, 625, 631, 638, 646, 652, 657);
    lemma_row(s, 'b', 104, 652, 657, 662, 669, 676, 683, 690, 697, 703, 707);
    lemma_line(s, 'b', 112, 703, 707, 716);
    lemma_line(s, 'b', 113, 707, 716, 721);
    lemma_line(s, 'b', 114, 716, 721, 728);
    lemma_line(s, 'b', 115, 721, 728, 734);
    lemma_line(s, 'b', 116, 728, 734, 739);
}

/// The words that begin with c: 186 of them.
proof fn lemma_words_c()
    ensures
        all_listed(WORDS_C@, 'c', 186),
{
    reveal_strlit(
        "\
        cabbage\ncabin\ncable\ncactus\ncage\ncake\ncall\ncalm\ncamera\ncamp\ncan\ncanal\ncancel\n\
        candy\ncannon\ncanoe\ncanvas\ncanyon\ncapable\ncapital\ncaptain\ncar\ncarbon\ncard\n\
        cargo\ncarpet\ncarry\ncart\ncase\ncash\ncasino\ncastle\ncasual\ncat\ncatalog\ncatch\n\
        category\ncattle\ncaught\ncause\ncaution\ncave\nceiling\ncelery\ncement\ncensus\n\
        century\ncereal\ncertain\nchair\nchalk\nchampion\nchange\nchaos\nchapter\ncharge\nchase\n\
        chat\ncheap\ncheck\ncheese\nchef\ncherry\nchest\nchicken\nchief\nchild\nchimney\nchoice\n\
        choose\nchronic\nchuckle\nchunk\nchurn\ncigar\ncinnamon\ncircle\ncitizen\ncity\ncivil\n\
        claim\nclap\nclarify\nclaw\nclay\nclean\nclerk\nclever\nclick\nclient\ncliff\nclimb\n\
        clinic\nclip\nclock\nclog\nclose\ncloth\ncloud\nclown\nclub\nclump\ncluster\nclutch\n\
        coach\ncoast\ncoconut\ncode\ncoffee\ncoil\ncoin\ncollect\ncolor\ncolumn\ncombine\ncome\n\
        comfort\ncomic\ncommon\ncompany\nconcert\nconduct\nconfirm\ncongress\nconnect\nconsider\n\
        control\nconvince\ncook\ncool\ncopper\ncopy\ncoral\ncore\ncorn\ncorrect\ncost\ncotton\n\
        couch\ncountry\ncouple\ncourse\ncousin\ncover\ncoyote\ncrack\ncradle\ncraft\ncram\n\
        crane\ncrash\ncrater\ncrawl\ncrazy\ncream\ncredit\ncreek\ncrew\ncricket\ncrime\ncrisp\n\
        critic\ncrop\ncross\ncrouch\ncrowd\ncrucial\ncruel\ncruise\ncrumble\ncrunch\ncrush\ncry\n\
        crystal\ncube\nculture\ncup\ncupboard\ncurious\ncurrent\ncurtain\ncurve\ncushion\n\
        custom\ncute\ncycle\n",
    );
    let s = WORDS_C@;
    lemma_none(s, 'c');
    lemma_row(s, 'c', 0, 0, 0, 8, 14, 20, 27, 32, 37, 42, 47);
    lemma_row(s, 'c', 8, 42, 47, 54, 59, 63, 69, 76, 82, 89, 95);
    lemma_row(s, 'c', 16, 89, 95, 102, 109, 117, 125, 133, 137, 144, 149);
    lemma_row(s, 'c', 24, 144, 149, 155, 162, 168, 173, 178, 183, 190, 197);
    lemma_row(s, 'c', 32, 190, 197, 204, 208, 216, 222, 231, 238, 245, 251);
    lemma_row(s, 'c', 40, 245, 251, 259, 264, 272, 279, 286, 293, 301, 308);
    lemma_row(s, 'c', 48, 301, 308, 316, 322, 328, 337, 344, 350, 358, 365);
    lemma_row(s, 'c', 56, 358, 365, 371, 376, 382, 388, 395, 400, 407, 413);
    lemma_row(s, 'c', 64, 407, 413, 421, 427, 433, 441, 448, 455, 463, 471);
    lemma_row(s, 'c', 72, 463, 471, 477, 483, 489, 498, 505, 513, 518, 524);
    lemma_row(s, 'c', 80, 518, 524, 530, 535, 543, 548, 553, 559, 565, 572);
    lemma_row(s, 'c', 88, 565, 572, 578, 585, 591, 597, 604, 609, 615, 620);
    lemma_row(s, 'c', 96, 615, 620, 626, 632, 638, 644, 649, 655, 663, 670);
    lemma_row(s, 'c', 104, 663, 670, 676, 682, 690, 695, 702, 707, 712, 720);
    lemma_row(s, 'c', 112, 712, 720, 726, 733, 741, 746, 754, 760, 767, 775);
    lemma_row(s, 'c', 120, 767, 775, 783, 791, 799, 808, 816, 825, 833, 842);
    lemma_row(s, 'c', 128, 833, 842, 847, 852, 859, 864, 870, 875, 880, 888);
    lemma_row(s, 'c', 136, 880, 888, 893, 900, 906, 914, 921, 928, 935, 941);
    lemma_row(s, 'c', 144, 935, 941, 948, 954, 961, 967, 972, 978, 984, 991);
    lemma_row(s, 'c', 152, 984, 991, 997, 1003, 1009, 1016, 1022, 1027, 1035, 1041);
    lemma_row(s, 'c', 160, 1035, 1041, 1047, 1054, 1059, 1065, 1072, 1078, 1086, 1092);
    lemma_row(s, 'c', 168, 1086, 1092, 1099, 1107, 1114, 1120, 1124, 1132, 1137, 1145);
    lemma_row(s, 'c', 176, 1137, 1145, 1149, 1158, 1166, 1174, 1182, 1188, 1196, 1203);
    lemma_line(s, 'c', 184, 1196, 1203, 1208);
    lemma_line(s, 'c', 185, 1203, 1208, 1214);
}

/// The words that begin with d: 112 of them.
proof fn lemma_words_d()
    ensures
        all_listed(WORDS_D@, 'd', 112),
{
    reveal_strlit(
        "\
        dad\ndamage\ndamp\ndance\ndanger\ndaring\ndash\ndaughter\ndawn\nday\ndeal\ndebate\n\
        debris\ndecade\ndecember\ndecide\ndecline\ndecorate\ndecrease\ndeer\ndefense\ndefine\n\
        defy\ndegree\ndelay\ndeliver\ndemand\ndemise\ndenial\ndentist\ndeny\ndepart\ndepend\n\
        deposit\ndepth\ndeputy\nderive\ndescribe\ndesert\ndesign\ndesk\ndespair\ndestroy\n\
        detail\ndetect\ndevelop\ndevice\ndevote\ndiagram\ndial\ndiamond\ndiary\ndice\ndiesel\n\
        diet\ndiffer\ndigital\ndignity\ndilemma\ndinner\ndinosaur\ndirect\ndirt\ndisagree\n\
        discover\ndisease\ndish\ndismiss\ndisorder\ndisplay\ndistance\ndivert\ndivide\ndivorce\n\
        dizzy\ndoctor\ndocument\ndog\ndoll\ndolphin\ndomain\ndonate\ndonkey\ndonor\ndoor\ndose\n\
        double\ndove\ndraft\ndragon\ndrama\ndrastic\ndraw\ndream\ndress\ndrift\ndrill\ndrink\n\
        drip\ndrive\ndrop\ndrum\ndry\nduck\ndumb\ndune\nduring\ndust\ndutch\nduty\ndwarf\n\
        dynamic\n",
    );
    let s = WORDS_D@;
    lemma_none(s, 'd');
    lemma_row(s, 'd', 0, 0, 0, 4, 11, 16, 22, 29, 36, 41, 50);
    lemma_row(s, 'd', 8, 41, 50, 55, 59, 64, 71, 78, 85, 94, 101);
    lemma_row(s, 'd', 16, 94, 101, 109, 118, 127, 132, 140, 147, 152, 159);
    lemma_row(s, 'd', 24, 152, 159, 165, 173, 180, 187, 194, 202, 207, 214);
    lemma_row(s, 'd', 32, 207, 214, 221, 229, 235, 242, 249, 258, 265, 272);
    lemma_row(s, 'd', 40, 265, 272, 277, 285, 293, 300, 307, 315, 322, 329);
    lemma_row(s, 'd', 48, 322, 329, 337, 342, 350, 356, 361, 368, 373, 380);
    lemma_row(s, 'd', 56, 373, 380, 388, 396, 404, 411, 420, 427, 432, 441);
    lemma_row(s, 'd', 64, 432, 441, 450, 458, 463, 471, 480, 488, 497, 504);
    lemma_row(s, 'd', 72, 497, 504, 511, 519, 525, 532, 541, 545, 550, 558);
    lemma_row(s, 'd', 80, 550, 558, 565, 572, 579, 585, 590, 595, 602, 607);
    lemma_row(s, 'd', 88, 602, 607, 613, 620, 626, 634, 639, 645, 651, 657);
    lemma_row(s, 'd', 96, 651, 657, 663, 669, 674, 680, 685, 690, 694, 699);
    lemma_row(s, 'd', 104, 694, 699, 704, 709, 716, 721, 727, 732, 738, 746);
}

/// The words that begin with e: 100 of them.
proof fn lemma_words_e()
    ensures
        all_listed(WORDS_E@, 'e', 100),
{
    reveal_strlit(
        "\
        eager\neagle\nearly\nearn\nearth\neasily\neast\neasy\necho\necology\neconomy\nedge\n\
        edit\neducate\neffort\negg\neight\neither\nelbow\nelder\nelectric\nelegant\nelement\n\
        elephant\nelevator\nelite\nelse\nembark\nembody\nembrace\nemerge\nemotion\nemploy\n\
        empower\nempty\nenable\nenact\nend\nendless\nendorse\nenemy\nenergy\nenforce\nengage\n\
        engine\nenhance\nenjoy\nenlist\nenough\nenrich\nenroll\nensure\nenter\nentire\nentry\n\
        envelope\nepisode\nequal\nequip\nera\nerase\nerode\nerosion\nerror\nerupt\nescape\n\
        essay\nessence\nestate\neternal\nethics\nevidence\nevil\nevoke\nevolve\nexact\nexample\n\
        excess\nexchange\nexcite\nexclude\nexcuse\nexecute\nexercise\nexhaust\nexhibit\nexile\n\
        exist\nexit\nexotic\nexpand\nexpect\nexpire\nexplain\nexpose\nexpress\nextend\nextra\n\
        eye\neyebrow\n",
    );
    let s = WORDS_E@;
    lemma_none(s, 'e');
    lemma_row(s, 'e', 0, 0, 0, 6, 12, 18, 23, 29, 36, 41, 46);
    lemma_row(s, 'e', 8, 41, 46, 51, 59, 67, 72, 77, 85, 92, 96);
    lemma_row(s, 'e', 16, 92, 96, 102, 109, 115, 121, 130, 138, 146, 155);
    lemma_row(s, 'e', 24, 146, 155, 164, 170, 175, 182, 189, 197, 204, 212);
    lemma_row(s, 'e', 32, 204, 212, 219, 227, 233, 240, 246, 250, 258, 266);
    lemma_row(s, 'e', 40, 258, 266, 272, 279, 287, 294, 301, 309, 315, 322);
    lemma_row(s, 'e', 48, 315, 322, 329, 336, 343, 350, 356, 363, 369, 378);
    lemma_row(s, 'e', 56, 369, 378, 386, 392, 398, 402, 408, 414, 422, 428);
    lemma_row(s, 'e', 64, 422, 428, 434, 441, 447, 455, 462, 470, 477, 486);
    lemma_row(s, 'e', 72, 477, 486, 491, 497, 504, 510, 518, 525, 534, 541);
    lemma_row(s, 'e', 80, 534, 541, 549, 556, 564, 573, 581, 589, 595, 601);
    lemma_row(s, 'e', 88, 595, 601, 606, 613, 620, 627, 634, 642, 649, 657);
    lemma_line(s, 'e', 96, 649, 657, 664);
    lemma_line(s, 'e', 97, 657, 664, 670);
    lemma_line(s, 'e', 98, 664, 670, 674);
    lemma_line(s, 'e', 99, 670, 674, 682);
}

/// The words that begin with f: 106 of them.
proof fn lemma_words_f()
    ensures
        all_listed(WORDS_F@, 'f', 106),
{
    reveal_strlit(
        "\
        fabric\nface\nfaculty\nfade\nfaint\nfaith\nfall\nfalse\nfame\nfamily\nfamous\nfan\n\
        fancy\nfantasy\nfarm\nfashion\nfat\nfatal\nfather\nfatigue\nfault\nfavorite\nfeature\n\
        february\nfederal\nfee\nfeed\nfeel\nfemale\nfence\nfestival\nfetch\nfever\nfew\nfiber\n\
        fiction\nfield\nfigure\nfile\nfilm\nfilter\nfinal\nfind\nfine\nfinger\nfinish\nfire\n\
        firm\nfirst\nfiscal\nfish\nfit\nfitness\nfix\nflag\nflame\nflash\nflat\nflavor\nflee\n\
        flight\nflip\nfloat\nflock\nfloor\nflower\nfluid\nflush\nfly\nfoam\nfocus\nfog\nfoil\n\
        fold\nfollow\nfood\nfoot\nforce\nforest\nforget\nfork\nfortune\nforum\nforward\nfossil\n\
        foster\nfound\nfox\nfragile\nframe\nfrequent\nfresh\nfriend\nfringe\nfrog\nfront\nfrost\n\
        frown\nfrozen\nfruit\nfuel\nfun\nfunny\nfurnace\nfury\nfuture\n",
    );
    let s = WORDS_F@;
    lemma_none(s, 'f');
    lemma_row(s, 'f', 0, 0, 0, 7, 12, 20, 25, 31, 37, 42, 48);
    lemma_row(s, 'f', 8, 42, 48, 53, 60, 67, 71, 77, 85, 90, 98);
    lemma_row(s, 'f', 16, 90, 98, 102, 108, 115, 123, 129, 138, 146, 155);
    lemma_row(s, 'f', 24, 146, 155, 163, 167, 172, 177, 184, 190, 199, 205);
    lemma_row(s, 'f', 32, 199, 205, 211, 215, 221, 229, 235, 242, 247, 252);
    lemma_row(s, 'f', 40, 247, 252, 259, 265, 270, 275, 282, 289, 294, 299);
    lemma_row(s, 'f', 48, 294, 299, 305, 312, 317, 321, 329, 333, 338, 344);
    lemma_row(s, 'f', 56, 338, 344, 350, 355, 362, 367, 374, 379, 385, 391);
    lemma_row(s, 'f', 64, 385, 391, 397, 404, 410, 416, 420, 425, 431, 435);
    lemma_row(s, 'f', 72, 431, 435, 440, 445, 452, 457, 462, 468, 475, 482);
    lemma_row(s, 'f', 80, 475, 482, 487, 495, 501, 509, 516, 523, 529, 533);
    lemma_row(s, 'f', 88, 529, 533, 541, 547, 556, 562, 569, 576, 581, 587);
    lemma_row(s, 'f', 96, 581, 587, 593, 599, 606, 612, 617, 621, 627, 635);
    lemma_line(s, 'f', 104, 627, 635, 640);
    lemma_line(s, 'f', 105, 635, 640, 647);
}

/// The words that begin with g: 76 of them.
proof fn lemma_words_g()
    ensures
        all_listed(WORDS_G@, 'g', 76),
{
    reveal_strlit(
        "\
        gadget\ngain\ngalaxy\ngallery\ngame\ngap\ngarage\ngarbage\ngarden\ngarlic\ngarment\ngas\n\
        gasp\ngate\ngather\ngauge\ngaze\ngeneral\ngenius\ngenre\ngentle\ngenuine\ngesture\n\
        ghost\ngiant\ngift\ngiggle\nginger\ngiraffe\ngirl\ngive\nglad\nglance\nglare\nglass\n\
        glide\nglimpse\nglobe\ngloom\nglory\nglove\nglow\nglue\ngoat\ngoddess\ngold\ngood\n\
        goose\ngorilla\ngospel\ngossip\ngovern\ngown\ngrab\ngrace\ngrain\ngrant\ngrape\ngrass\n\
        gravity\ngreat\ngreen\ngrid\ngrief\ngrit\ngrocery\ngroup\ngrow\ngrunt\nguard\nguess\n\
        guide\nguilt\nguitar\ngun\ngym\n",
    );
    let s = WORDS_G@;
    lemma_none(s, 'g');
    lemma_row(s, 'g', 0, 0, 0, 7, 12, 19, 27, 32, 36, 43, 51);
    lemma_row(s, 'g', 8, 43, 51, 58, 65, 73, 77, 82, 87, 94, 100);
    lemma_row(s, 'g', 16, 94, 100, 105, 113, 120, 126, 133, 141, 149, 155);
    lemma_row(s, 'g', 24, 149, 155, 161, 166, 173, 180, 188, 193, 198, 203);
    lemma_row(s, 'g', 32, 198, 203, 210, 216, 222, 228, 236, 242, 248, 254);
    lemma_row(s, 'g', 40, 248, 254, 260, 265, 270, 275, 283, 288, 293, 299);
    lemma_row(s, 'g', 48, 293, 299, 307, 314, 321, 328, 333, 338, 344, 350);
    lemma_row(s, 'g', 56, 344, 350, 356, 362, 368, 376, 382, 388, 393, 399);
    lemma_row(s, 'g', 64, 393, 399, 404, 412, 418, 423, 429, 435, 441, 447);
    lemma_line(s, 'g', 72, 441, 447, 453);
    lemma_line(s, 'g', 73, 447, 453, 460);
    lemma_line(s, 'g', 74, 453, 460, 464);
    lemma_line(s, 'g', 75, 460, 464, 468);
}

/// The words that begin with h: 64 of them.
proof fn lemma_words_h()
    ensures
        all_listed(WORDS_H@, 'h', 64),
{
    reveal_strlit(
        "\
        habit\nhair\nhalf\nhammer\nhamster\nhand\nhappy\nharbor\nhard\nharsh\nharvest\nhat\n\
        have\nhawk\nhazard\nhead\nhealth\nheart\nheavy\nhedgehog\nheight\nhello\nhelmet\nhelp\n\
        hen\nhero\nhidden\nhigh\nhill\nhint\nhip\nhire\nhistory\nhobby\nhockey\nhold\nhole\n\
        holiday\nhollow\nhome\nhoney\nhood\nhope\nhorn\nhorror\nhorse\nhospital\nhost\nhotel\n\
        hour\nhover\nhub\nhuge\nhuman\nhumble\nhumor\nhundred\nhungry\nhunt\nhurdle\nhurry\n\
        hurt\nhusband\nhybrid\n",
    );
    let s = WORDS_H@;
    lemma_none(s, 'h');
    lemma_row(s, 'h', 0, 0, 0, 6, 11, 16, 23, 31, 36, 42, 49);
    lemma_row(s, 'h', 8, 42, 49, 54, 60, 68, 72, 77, 82, 89, 94);
    lemma_row(s, 'h', 16, 89, 94, 101, 107, 113, 122, 129, 135, 142, 147);
    lemma_row(s, 'h', 24, 142, 147, 151, 156, 163, 168, 173, 178, 182, 187);
    lemma_row(s, 'h', 32, 182, 187, 195, 201, 208, 213, 218, 226, 233, 238);
    lemma_row(s, 'h', 40, 233, 238, 244, 249, 254, 259, 266, 272, 281, 286);
    lemma_row(s, 'h', 48, 281, 286, 292, 297, 303, 307, 312, 318, 325, 331);
    lemma_row(s, 'h', 56, 325, 331, 339, 346, 351, 358, 364, 369, 377, 384);
}

/// The words that begin with i: 55 of them.
proof fn lemma_words_i()
    ensures
        all_listed(WORDS_I@, 'i', 55),
{
    reveal_strlit(
        "\
        ice\nicon\nidea\nidentify\nidle\nignore\nill\nillegal\nillness\nimage\nimitate\nimmense\n\
        immune\nimpact\nimpose\nimprove\nimpulse\ninch\ninclude\nincome\nincrease\nindex\n\
        indicate\nindoor\nindustry\ninfant\ninflict\ninform\ninhale\ninherit\ninitial\ninject\n\
        injury\ninmate\ninner\ninnocent\ninput\ninquiry\ninsane\ninsect\ninside\ninspire\n\
        install\nintact\ninterest\ninto\ninvest\ninvite\ninvolve\niron\nisland\nisolate\nissue\n\
        item\nivory\n",
    );
    let s = WORDS_I@;
    lemma_none(s, 'i');
    lemma_row(s, 'i', 0, 0, 0, 4, 9, 14, 23, 28, 35, 39, 47);
    lemma_row(s, 'i', 8, 39, 47, 55, 61, 69, 77, 84, 91, 98, 106);
    lemma_row(s, 'i', 16, 98, 106, 114, 119, 127, 134, 143, 149, 158, 165);
    lemma_row(s, 'i', 24, 158, 165, 174, 181, 189, 196, 203, 211, 219, 226);
    lemma_row(s, 'i', 32, 219, 226, 233, 240, 246, 255, 261, 269, 276, 283);
    lemma_row(s, 'i', 40, 276, 283, 290, 298, 306, 313, 322, 327, 334, 341);
    lemma_line(s, 'i', 48, 334, 341, 349);
    lemma_line(s, 'i', 49, 341, 349, 354);
    lemma_line(s, 'i', 50, 349, 354, 361);
    lemma_line(s, 'i', 51, 354, 361, 369);
    lemma_line(s, 'i', 52, 361, 369, 375);
    lemma_line(s, 'i', 53, 369, 375, 380);
    lemma_line(s, 'i', 54, 375, 380, 386);
}

/// The words that begin with j: 20 of them.
proof fn lemma_words_j()
    ensures
        all_listed(WORDS_J@, 'j', 20),
{
    reveal_strlit(
        "\
        jacket\njaguar\njar\njazz\njealous\njeans\njelly\njewel\njob\njoin\njoke\njourney\njoy\n\
        judge\njuice\njump\njungle\njunior\njunk\njust\n",
    );
    let s = WORDS_J@;
    lemma_none(s, 'j');
    lemma_row(s, 'j', 0, 0, 0, 7, 14, 18, 23, 31, 37, 43, 49);
    lemma_row(s, 'j', 8, 43, 49, 53, 58, 63, 71, 75, 81, 87, 92);
    lemma_line(s, 'j', 16, 87, 92, 99);
    lemma_line(s, 'j', 17, 92, 99, 106);
    lemma_line(s, 'j', 18, 99, 106, 111);
    lemma_line(s, 'j', 19, 106, 111, 116);
}

/// The words that begin with k: 20 of them.
proof fn lemma_words_k()
    ensures
        all_listed(WORDS_K@, 'k', 20),
{
    reveal_strlit(
        "\
        kangaroo\nkeen\nkeep\nketchup\nkey\nkick\nkid\nkidney\nkind\nkingdom\nkiss\nkit\n\
        kitchen\nkite\nkitten\nkiwi\nknee\nknife\nknock\nknow\n",
    );
    let s = WORDS_K@;
    lemma_none(s, 'k');
    lemma_row(s, 'k', 0, 0, 0, 9, 14, 19, 27, 31, 36, 40, 47);
    lemma_row(s, 'k', 8, 40, 47, 52, 60, 65, 69, 77, 82, 89, 94);
    lemma_line(s, 'k', 16, 89, 94, 99);
    lemma_line(s, 'k', 17, 94, 99, 105);
    lemma_line(s, 'k', 18, 99, 105, 111);
    lemma_line(s, 'k', 19, 105, 111, 116);
}

/// The words that begin with l: 76 of them.
proof fn lemma_words_l()
    ensures
        all_listed(WORDS_L@, 'l', 76),
{
    reveal_strlit(
        "\
        lab\nlabel\nlabor\nladder\nlady\nlake\nlamp\nlanguage\nlaptop\nlarge\nlater\nlatin\n\
        laugh\nlaundry\nlava\nlaw\nlawn\nlawsuit\nlayer\nlazy\nleader\nleaf\nlearn\nleave\n\
        lecture\nleft\nleg\nlegal\nlegend\nleisure\nlemon\nlend\nlength\nlens\nleopard\nlesson\n\
        letter\nlevel\nliar\nliberty\nlibrary\nlicense\nlife\nlift\nlight\nlike\nlimb\nlimit\n\
        link\nlion\nliquid\nlist\nlittle\nlive\nlizard\nload\nloan\nlobster\nlocal\nlock\nlogic\n\
        lonely\nlong\nloop\nlottery\nloud\nlounge\nlove\nloyal\nlucky\nluggage\nlumber\nlunar\n\
        lunch\nluxury\nlyrics\n",
    );
    let s = WORDS_L@;
    lemma_none(s, 'l');
    lemma_row(s, 'l', 0, 0, 0, 4, 10, 16, 23, 28, 33, 38, 47);
    lemma_row(s, 'l', 8, 38, 47, 54, 60, 66, 72, 78, 86, 91, 95);
    lemma_row(s, 'l', 16, 91, 95, 100, 108, 114, 119, 126, 131, 137, 143);
    lemma_row(s, 'l', 24, 137, 143, 151, 156, 160, 166, 173, 181, 187, 192);
    lemma_row(s, 'l', 32, 187, 192, 199, 204, 212, 219, 226, 232, 237, 245);
    lemma_row(s, 'l', 40, 237, 245, 253, 261, 266, 271, 277, 282, 287, 293);
    lemma_row(s, 'l', 48, 287, 293, 298, 303, 310, 315, 322, 327, 334, 339);
    lemma_row(s, 'l', 56, 334, 339, 344, 352, 358, 363, 369, 376, 381, 386);
    lemma_row(s, 'l', 64, 381, 386, 394, 399, 406, 411, 417, 423, 431, 438);
    lemma_line(s, 'l', 72, 431, 438, 444);
    lemma_line(s, 'l', 73, 438, 444, 450);
    lemma_line(s, 'l', 74, 444, 450, 457);
    lemma_line(s, 'l', 75, 450, 457, 464);
}

/// The words that begin with m: 105 of them.
proof fn lemma_words_m()
    ensures
        all_listed(WORDS_M@, 'm', 105),
{
    reveal_strlit(
        "\
        machine\nmad\nmagic\nmagnet\nmaid\nmail\nmain\nmajor\nmake\nmammal\nman\nmanage\n\
        mandate\nmango\nmansion\nmanual\nmaple\nmarble\nmarch\nmargin\nmarine\nmarket\nmarriage\n\
        mask\nmass\nmaster\nmatch\nmaterial\nmath\nmatrix\nmatter\nmaximum\nmaze\nmeadow\nmean\n\
        measure\nmeat\nmechanic\nmedal\nmedia\nmelody\nmelt\nmember\nmemory\nmention\nmenu\n\
        mercy\nmerge\nmerit\nmerry\nmesh\nmessage\nmetal\nmethod\nmiddle\nmidnight\nmilk\n\
        million\nmimic\nmind\nminimum\nminor\nminute\nmiracle\nmirror\nmisery\nmiss\nmistake\n\
        mix\nmixed\nmixture\nmobile\nmodel\nmodify\nmom\nmoment\nmonitor\nmonkey\nmonster\n\
        month\nmoon\nmoral\nmore\nmorning\nmosquito\nmother\nmotion\nmotor\nmountain\nmouse\n\
        move\nmovie\nmuch\nmuffin\nmule\nmultiply\nmuscle\nmuseum\nmushroom\nmusic\nmust\n\
        mutual\nmyself\nmystery\nmyth\n",
    );
    let s = WORDS_M@;
    lemma_none(s, 'm');
    lemma_row(s, 'm', 0, 0, 0, 8, 12, 18, 25, 30, 35, 40, 46);
    lemma_row(s, 'm', 8, 40, 46, 51, 58, 62, 69, 77, 83, 91, 98);
    lemma_row(s, 'm', 16, 91, 98, 104, 111, 117, 124, 131, 138, 147, 152);
    lemma_row(s, 'm', 24, 147, 152, 157, 164, 170, 179, 184, 191, 198, 206);
    lemma_row(s, 'm', 32, 198, 206, 211, 218, 223, 231, 236, 245, 251, 257);
    lemma_row(s, 'm', 40, 251, 257, 264, 269, 276, 283, 291, 296, 302, 308);
    lemma_row(s, 'm', 48, 302, 308, 314, 320, 325, 333, 339, 346, 353, 362);
    lemma_row(s, 'm', 56, 353, 362, 367, 375, 381, 386, 394, 400, 407, 415);
    lemma_row(s, 'm', 64, 407, 415, 422, 429, 434, 442, 446, 452, 460, 467);
    lemma_row(s, 'm', 72, 460, 467, 473, 480, 484, 491, 499, 506, 514, 520);
    lemma_row(s, 'm', 80, 514, 520, 525, 531, 536, 544, 553, 560, 567, 573);
    lemma_row(s, 'm', 88, 567, 573, 582, 588, 593, 599, 604, 611, 616, 625);
    lemma_row(s, 'm', 96, 616, 625, 632, 639, 648, 654, 659, 666, 673, 681);
    lemma_line(s, 'm', 104, 673, 681, 686);
}

/// The words that begin with n: 41 of them.
proof fn lemma_words_n()
    ensures
        all_listed(WORDS_N@, 'n', 41),
{
    reveal_strlit(
        "\
        naive\nname\nnapkin\nnarrow\nnasty\nnation\nnature\nnear\nneck\nneed\nnegative\nneglect\n\
        neither\nnephew\nnerve\nnest\nnet\nnetwork\nneutral\nnever\nnews\nnext\nnice\nnight\n\
        noble\nnoise\nnominee\nnoodle\nnormal\nnorth\nnose\nnotable\nnote\nnothing\nnotice\n\
        novel\nnow\nnuclear\nnumber\nnurse\nnut\n",
    );
    let s = WORDS_N@;
    lemma_none(s, 'n');
    lemma_row(s, 'n', 0, 0, 0, 6, 11, 18, 25, 31, 38, 45, 50);
    lemma_row(s, 'n', 8, 45, 50, 55, 60, 69, 77, 85, 92, 98, 103);
    lemma_row(s, 'n', 16, 98, 103, 107, 115, 123, 129, 134, 139, 144, 150);
    lemma_row(s, 'n', 24, 144, 150, 156, 162, 170, 177, 184, 190, 195, 203);
    lemma_row(s, 'n', 32, 195, 203, 208, 216, 223, 229, 233, 241, 248, 254);
    lemma_line(s, 'n', 40, 248, 254, 258);
}

/// The words that begin with o: 55 of them.
proof fn lemma_words_o()
    ensures
        all_listed(WORDS_O@, 'o', 55),
{
    reveal_strlit(
        "\
        oak\nobey\nobject\noblige\nobscure\nobserve\nobtain\nobvious\noccur\nocean\noctober\n\
        odor\noff\noffer\noffice\noften\noil\nokay\nold\nolive\nolympic\nomit\nonce\none\nonion\n\
        online\nonly\nopen\nopera\nopinion\noppose\noption\norange\norbit\norchard\norder\n\
        ordinary\norgan\norient\noriginal\norphan\nostrich\nother\noutdoor\nouter\noutput\n\
        outside\noval\noven\nover\nown\nowner\noxygen\noyster\nozone\n",
    );
    let s = WORDS_O@;
    lemma_none(s, 'o');
    lemma_row(s, 'o', 0, 0, 0, 4, 9, 16, 23, 31, 39, 46, 54);
    lemma_row(s, 'o', 8, 46, 54, 60, 66, 74, 79, 83, 89, 96, 102);
    lemma_row(s, 'o', 16, 96, 102, 106, 111, 115, 121, 129, 134, 139, 143);
    lemma_row(s, 'o', 24, 139, 143, 149, 156, 161, 166, 172, 180, 187, 194);
    lemma_row(s, 'o', 32, 187, 194, 201, 207, 215, 221, 230, 236, 243, 252);
    lemma_row(s, 'o', 40, 243, 252, 259, 267, 273, 281, 287, 294, 302, 307);
    lemma_line(s, 'o', 48, 302, 307, 312);
    lemma_line(s, 'o', 49, 307, 312, 317);
    lemma_line(s, 'o', 50, 312, 317, 321);
    lemma_line(s, 'o', 51, 317, 321, 327);
    lemma_line(s, 'o', 52, 321, 327, 334);
    lemma_line(s, 'o', 53, 327, 334, 341);
    lemma_line(s, 'o', 54, 334, 341, 347);
}

/// The words that begin with p: 132 of them.
proof fn lemma_words_p()
    ensures
        all_listed(WORDS_P@, 'p', 132),
{
    reveal_strlit(
        "\
        pact\npaddle\npage\npair\npalace\npalm\npanda\npanel\npanic\npanther\npaper\nparade\n\
        parent\npark\nparrot\nparty\npass\npatch\npath\npatient\npatrol\npattern\npause\npave\n\
        payment\npeace\npeanut\npear\npeasant\npelican\npen\npenalty\npencil\npeople\npepper\n\
        perfect\npermit\nperson\npet\nphone\nphoto\nphrase\nphysical\npiano\npicnic\npicture\n\
        piece\npig\npigeon\npill\npilot\npink\npioneer\npipe\npistol\npitch\npizza\nplace\n\
        planet\nplastic\nplate\nplay\nplease\npledge\npluck\nplug\nplunge\npoem\npoet\npoint\n\
        polar\npole\npolice\npond\npony\npool\npopular\nportion\nposition\npossible\npost\n\
        potato\npottery\npoverty\npowder\npower\npractice\npraise\npredict\nprefer\nprepare\n\
        present\npretty\nprevent\nprice\npride\nprimary\nprint\npriority\nprison\nprivate\n\
        prize\nproblem\nprocess\nproduce\nprofit\nprogram\nproject\npromote\nproof\nproperty\n\
        prosper\nprotect\nproud\nprovide\npublic\npudding\npull\npulp\npulse\npumpkin\npunch\n\
        pupil\npuppy\npurchase\npurity\npurpose\npurse\npush\nput\npuzzle\npyramid\n",
    );
    let s = WORDS_P@;
    lemma_none(s, 'p');
    lemma_row(s, 'p', 0, 0, 0, 5, 12, 17, 22, 29, 34, 40, 46);
    lemma_row(s, 'p', 8, 40, 46, 52, 60, 66, 73, 80, 85, 92, 98);
    lemma_row(s, 'p', 16, 92, 98, 103, 109, 114, 122, 129, 137, 143, 148);
    lemma_row(s, 'p', 24, 143, 148, 156, 162, 169, 174, 182, 190, 194, 202);
    lemma_row(s, 'p', 32, 194, 202, 209, 216, 223, 231, 238, 245, 249, 255);
    lemma_row(s, 'p', 40, 249, 255, 261, 268, 277, 283, 290, 298, 304, 308);
    lemma_row(s, 'p', 48, 304, 308, 315, 320, 326, 331, 339, 344, 351, 357);
    lemma_row(s, 'p', 56, 351, 357, 363, 369, 376, 384, 390, 395, 402, 409);
    lemma_row(s, 'p', 64, 402, 409, 415, 420, 427, 432, 437, 443, 449, 454);
    lemma_row(s, 'p', 72, 449, 454, 461, 466, 471, 476, 484, 492, 501, 510);
    lemma_row(s, 'p', 80, 501, 510, 515, 522, 530, 538, 545, 551, 560, 567);
    lemma_row(s, 'p', 88, 560, 567, 575, 582, 590, 598, 605, 613, 619, 625);
    lemma_row(s, 'p', 96, 619, 625, 633, 639, 648, 655, 663, 669, 677, 685);
    lemma_row(s, 'p', 104, 677, 685, 693, 700, 708, 716, 724, 730, 739, 747);
    lemma_row(s, 'p', 112, 739, 747, 755, 761, 769, 776, 784, 789, 794, 800);
    lemma_row(s, 'p', 120, 794, 800, 808, 814, 820, 826, 835, 842, 850, 856);
    lemma_line(s, 'p', 128, 850, 856, 861);
    lemma_line(s, 'p', 129, 856, 861, 865);
    lemma_line(s, 'p', 130, 861, 865, 872);
    lemma_line(s, 'p', 131, 865, 872, 880);
}

/// The words that begin with q: 8 of them.
proof fn lemma_words_q()
    ensures
        all_listed(WORDS_Q@, 'q', 8),
{
    reveal_strlit(
        "\
        quality\nquantum\nquarter\nquestion\nquick\nquit\nquiz\nquote\n",
    );
    let s = WORDS_Q@;
    lemma_none(s, 'q');
    lemma_row(s, 'q', 0, 0, 0, 8, 16, 24, 33, 39, 44, 49, 55);
}

/// The words that begin with r: 108 of them.
proof fn lemma_words_r()
    ensures
        all_listed(WORDS_R@, 'r', 108),
{
    reveal_strlit(
        "\
        rabbit\nraccoon\nrace\nrack\nradar\nradio\nrail\nrain\nraise\nrally\nramp\nranch\n\
        random\nrange\nrapid\nrare\nrate\nrather\nraven\nraw\nrazor\nready\nreal\nreason\nrebel\n\
        rebuild\nrecall\nreceive\nrecipe\nrecord\nrecycle\nreduce\nreflect\nreform\nrefuse\n\
        region\nregret\nregular\nreject\nrelax\nrelease\nrelief\nrely\nremain\nremember\nremind\n\
        remove\nrender\nrenew\nrent\nreopen\nrepair\nrepeat\nreplace\nreport\nrequire\nrescue\n\
        resemble\nresist\nresource\nresponse\nresult\nretire\nretreat\nreturn\nreunion\nreveal\n\
        review\nreward\nrhythm\nrib\nribbon\nrice\nrich\nride\nridge\nrifle\nright\nrigid\nring\n\
        riot\nripple\nrisk\nritual\nrival\nriver\nroad\nroast\nrobot\nrobust\nrocket\nromance\n\
        roof\nrookie\nroom\nrose\nrotate\nrough\nround\nroute\nroyal\nrubber\nrude\nrug\nrule\n\
        run\nrunway\nrural\n",
    );
    let s = WORDS_R@;
    lemma_none(s, 'r');
    lemma_row(s, 'r', 0, 0, 0, 7, 15, 20, 25, 31, 37, 42, 47);
    lemma_row(s, 'r', 8, 42, 47, 53, 59, 64, 70, 77, 83, 89, 94);
    lemma_row(s, 'r', 16, 89, 94, 99, 106, 112, 116, 122, 128, 133, 140);
    lemma_row(s, 'r', 24, 133, 140, 146, 154, 161, 169, 176, 183, 191, 198);
    lemma_row(s, 'r', 32, 191, 198, 206, 213, 220, 227, 234, 242, 249, 255);
    lemma_row(s, 'r', 40, 249, 255, 263, 270, 275, 282, 291, 298, 305, 312);
    lemma_row(s, 'r', 48, 305, 312, 318, 323, 330, 337, 344, 352, 359, 367);
    lemma_row(s, 'r', 56, 359, 367, 374, 383, 390, 399, 408, 415, 422, 430);
    lemma_row(s, 'r', 64, 422, 430, 437, 445, 452, 459, 466, 473, 477, 484);
    lemma_row(s, 'r', 72, 477, 484, 489, 494, 499, 505, 511, 517, 523, 528);
    lemma_row(s, 'r', 80, 523, 528, 533, 540, 545, 552, 558, 564, 569, 575);
    lemma_row(s, 'r', 88, 569, 575, 581, 588, 595, 603, 608, 615, 620, 625);
    lemma_row(s, 'r', 96, 620, 625, 632, 638, 644, 650, 656, 663, 668, 672);
    lemma_line(s, 'r', 104, 668, 672, 677);
    lemma_line(s, 'r', 105, 672, 677, 681);
    lemma_line(s, 'r', 106, 677, 681, 688);
    lemma_line(s, 'r', 107, 681, 688, 694);
}

/// The words that begin with s: 250 of them.
proof fn lemma_words_s()
    ensures
        all_listed(WORDS_S@, 's', 250),
{
    reveal_strlit(
        "\
        sad\nsaddle\nsadness\nsafe\nsail\nsalad\nsalmon\nsalon\nsalt\nsalute\nsame\nsample\n\
        sand\nsatisfy\nsatoshi\nsauce\nsausage\nsave\nsay\nscale\nscan\nscare\nscatter\nscene\n\
        scheme\nschool\nscience\nscissors\nscorpion\nscout\nscrap\nscreen\nscript\nscrub\nsea\n\
        search\nseason\nseat\nsecond\nsecret\nsection\nsecurity\nseed\nseek\nsegment\nselect\n\
        sell\nseminar\nsenior\nsense\nsentence\nseries\nservice\nsession\nsettle\nsetup\nseven\n\
        shadow\nshaft\nshallow\nshare\nshed\nshell\nsheriff\nshield\nshift\nshine\nship\nshiver\n\
        shock\nshoe\nshoot\nshop\nshort\nshoulder\nshove\nshrimp\nshrug\nshuffle\nshy\nsibling\n\
        sick\nside\nsiege\nsight\nsign\nsilent\nsilk\nsilly\nsilver\nsimilar\nsimple\nsince\n\
        sing\nsiren\nsister\nsituate\nsix\nsize\nskate\nsketch\nski\nskill\nskin\nskirt\nskull\n\
        slab\nslam\nsleep\nslender\nslice\nslide\nslight\nslim\nslogan\nslot\nslow\nslush\n\
        small\nsmart\nsmile\nsmoke\nsmooth\nsnack\nsnake\nsnap\nsniff\nsnow\nsoap\nsoccer\n\
        social\nsock\nsoda\nsoft\nsolar\nsoldier\nsolid\nsolution\nsolve\nsomeone\nsong\nsoon\n\
        sorry\nsort\nsoul\nsound\nsoup\nsource\nsouth\nspace\nspare\nspatial\nspawn\nspeak\n\
        special\nspeed\nspell\nspend\nsphere\nspice\nspider\nspike\nspin\nspirit\nsplit\nspoil\n\
        sponsor\nspoon\nsport\nspot\nspray\nspread\nspring\nspy\nsquare\nsqueeze\nsquirrel\n\
        stable\nstadium\nstaff\nstage\nstairs\nstamp\nstand\nstart\nstate\nstay\nsteak\nsteel\n\
        stem\nstep\nstereo\nstick\nstill\nsting\nstock\nstomach\nstone\nstool\nstory\nstove\n\
        strategy\nstreet\nstrike\nstrong\nstruggle\nstudent\nstuff\nstumble\nstyle\nsubject\n\
        submit\nsubway\nsuccess\nsuch\nsudden\nsuffer\nsugar\nsuggest\nsuit\nsummer\nsun\nsunny\n\
        sunset\nsuper\nsupply\nsupreme\nsure\nsurface\nsurge\nsurprise\nsurround\nsurvey\n\
        suspect\nsustain\nswallow\nswamp\nswap\nswarm\nswear\nsweet\nswift\nswim\nswing\nswitch\n\
        sword\nsymbol\nsymptom\nsyrup\nsystem\n",
    );
    let s = WORDS_S@;
    lemma_none(s, 's');
    lemma_row(s, 's', 0, 0, 0, 4, 11, 19, 24, 29, 35, 42, 48);
    lemma_row(s, 's', 8, 42, 48, 53, 60, 65, 72, 77, 85, 93, 99);
    lemma_row(s, 's', 16, 93, 99, 107, 112, 116, 122, 127, 133, 141, 147);
    lemma_row(s, 's', 24, 141, 147, 154, 161, 169, 178, 187, 193, 199, 206);
    lemma_row(s, 's', 32, 199, 206, 213, 219, 223, 230, 237, 242, 249, 256);
    lemma_row(s, 's', 40, 249, 256, 264, 273, 278, 283, 291, 298, 303, 311);
    lemma_row(s, 's', 48, 303, 311, 318, 324, 333, 340, 348, 356, 363, 369);
    lemma_row(s, 's', 56, 363, 369, 375, 382, 388, 396, 402, 407, 413, 421);
    lemma_row(s, 's', 64, 413, 421, 428, 434, 440, 445, 452, 458, 463, 469);
    lemma_row(s, 's', 72, 463, 469, 474, 480, 489, 495, 502, 508, 516, 520);
    lemma_row(s, 's', 80, 516, 520, 528, 533, 538, 544, 550, 555, 562, 567);
    lemma_row(s, 's', 88, 562, 567, 573, 580, 588, 595, 601, 606, 612, 619);
    lemma_row(s, 's', 96, 612, 619, 627, 631, 636, 642, 649, 653, 659, 664);
    lemma_row(s, 's', 104, 659, 664, 670, 676, 681, 686, 692, 700, 706, 712);
    lemma_row(s, 's', 112, 706, 712, 719, 724, 731, 736, 741, 747, 753, 759);
    lemma_row(s, 's', 120, 753, 759, 765, 771, 778, 784, 790, 795, 801, 806);
    lemma_row(s, 's', 128, 801, 806, 811, 818, 825, 830, 835, 840, 846, 854);
    lemma_row(s, 's', 136, 846, 854, 860, 869, 875, 883, 888, 893, 899, 904);
    lemma_row(s, 's', 144, 899, 904, 909, 915, 920, 927, 933, 939, 945, 953);
    lemma_row(s, 's', 152, 945, 953, 959, 965, 973, 979, 985, 991, 998, 1004);
    lemma_row(s, 's', 160, 998, 1004, 1011, 1017, 1022, 1029, 1035, 1041, 1049, 1055);
    lemma_row(s, 's', 168, 1049, 1055, 1061, 1066, 1072, 1079, 1086, 1090, 1097, 1105);
    lemma_row(s, 's', 176, 1097, 1105, 1114, 1121, 1129, 1135, 1141, 1148, 1154, 1160);
    lemma_row(s, 's', 184, 1154, 1160, 1166, 1172, 1177, 1183, 1189, 1194, 1199, 1206);
    lemma_row(s, 's', 192, 1199, 1206, 1212, 1218, 1224, 1230, 1238, 1244, 1250, 1256);
    lemma_row(s, 's', 200, 1250, 1256, 1262, 1271, 1278, 1285, 1292, 1301, 1309, 1315);
    lemma_row(s, 's', 208, 1309, 1315, 1323, 1329, 1337, 1344, 1351, 1359, 1364, 1371);
    lemma_row(s, 's', 216, 1364, 1371, 1378, 1384, 1392, 1397, 1404, 1408, 1414, 1421);
    lemma_row(s, 's', 224, 1414, 1421, 1427, 1434, 1442, 1447, 1455, 1461, 1470, 1479);
    lemma_row(s, 's', 232, 1470, 1479, 1486, 1494, 1502, 1510, 1516, 1521, 1527, 1533);
    lemma_row(s, 's', 240, 1527, 1533, 1539, 1545, 1550, 1556, 1563, 1569, 1576, 1584);
    lemma_line(s, 's', 248, 1576, 1584, 1590);
    lemma_line(s, 's', 249, 1584, 1590, 1597);
}

/// The words that begin with t: 121 of them.
proof fn lemma_words_t()
    ensures
        all_listed(WORDS_T@, 't', 121),
{
    reveal_strlit(
        "\
        table\ntackle\ntag\ntail\ntalent\ntalk\ntank\ntape\ntarget\ntask\ntaste\ntattoo\ntaxi\n\
        teach\nteam\ntell\nten\ntenant\ntennis\ntent\nterm\ntest\ntext\nthank\nthat\ntheme\n\
        then\ntheory\nthere\nthey\nthing\nthis\nthought\nthree\nthrive\nthrow\nthumb\nthunder\n\
        ticket\ntide\ntiger\ntilt\ntimber\ntime\ntiny\ntip\ntired\ntissue\ntitle\ntoast\n\
        tobacco\ntoday\ntoddler\ntoe\ntogether\ntoilet\ntoken\ntomato\ntomorrow\ntone\ntongue\n\
        tonight\ntool\ntooth\ntop\ntopic\ntopple\ntorch\ntornado\ntortoise\ntoss\ntotal\n\
        tourist\ntoward\ntower\ntown\ntoy\ntrack\ntrade\ntraffic\ntragic\ntrain\ntransfer\ntrap\n\
        trash\ntravel\ntray\ntreat\ntree\ntrend\ntrial\ntribe\ntrick\ntrigger\ntrim\ntrip\n\
        trophy\ntrouble\ntruck\ntrue\ntruly\ntrumpet\ntrust\ntruth\ntry\ntube\ntuition\ntumble\n\
        tuna\ntunnel\nturkey\nturn\nturtle\ntwelve\ntwenty\ntwice\ntwin\ntwist\ntwo\ntype\n\
        typical\n",
    );
    let s = WORDS_T@;
    lemma_none(s, 't');
    lemma_row(s, 't', 0, 0, 0, 6, 13, 17, 22, 29, 34, 39, 44);
    lemma_row(s, 't', 8, 39, 44, 51, 56, 62, 69, 74, 80, 85, 90);
    lemma_row(s, 't', 16, 85, 90, 94, 101, 108, 113, 118, 123, 128, 134);
    lemma_row(s, 't', 24, 128, 134, 139, 145, 150, 157, 163, 168, 174, 179);
    lemma_row(s, 't', 32, 174, 179, 187, 193, 200, 206, 212, 220, 227, 232);
    lemma_row(s, 't', 40, 227, 232, 238, 243, 250, 255, 260, 264, 270, 277);
    lemma_row(s, 't', 48, 270, 277, 283, 289, 297, 303, 311, 315, 324, 331);
    lemma_row(s, 't', 56, 324, 331, 337, 344, 353, 358, 365, 373, 378, 384);
    lemma_row(s, 't', 64, 378, 384, 388, 394, 401, 407, 415, 424, 429, 435);
    lemma_row(s, 't', 72, 429, 435, 443, 450, 456, 461, 465, 471, 477, 485);
    lemma_row(s, 't', 80, 477, 485, 492, 498, 507, 512, 518, 525, 530, 536);
    lemma_row(s, 't', 88, 530, 536, 541, 547, 553, 559, 565, 573, 578, 583);
    lemma_row(s, 't', 96, 578, 583, 590, 598, 604, 609, 615, 623, 629, 635);
    lemma_row(s, 't', 104, 629, 635, 639, 644, 652, 659, 664, 671, 678, 683);
    lemma_row(s, 't', 112, 678, 683, 690, 697, 704, 710, 715, 721, 725, 730);
    lemma_line(s, 't', 120, 725, 730, 738);
}

/// The words that begin with u: 35 of them.
proof fn lemma_words_u()
    ensures
        all_listed(WORDS_U@, 'u', 35),
{
    reveal_strlit(
        "\
        ugly\numbrella\nunable\nunaware\nuncle\nuncover\nunder\nundo\nunfair\nunfold\nunhappy\n\
        uniform\nunique\nunit\nuniverse\nunknown\nunlock\nuntil\nunusual\nunveil\nupdate\n\
        upgrade\nuphold\nupon\nupper\nupset\nurban\nurge\nusage\nuse\nused\nuseful\nuseless\n\
        usual\nutility\n",
    );
    let s = WORDS_U@;
    lemma_none(s, 'u');
    lemma_row(s, 'u', 0, 0, 0, 5, 14, 21, 29, 35, 43, 49, 54);
    lemma_row(s, 'u', 8, 49, 54, 61, 68, 76, 84, 91, 96, 105, 113);
    lemma_row(s, 'u', 16, 105, 113, 120, 126, 134, 141, 148, 156, 163, 168);
    lemma_row(s, 'u', 24, 163, 168, 174, 180, 186, 191, 197, 201, 206, 213);
    lemma_line(s, 'u', 32, 206, 213, 221);
    lemma_line(s, 'u', 33, 213, 221, 227);
    lemma_line(s, 'u', 34, 221, 227, 235);
}

/// The words that begin with v: 46 of them.
proof fn lemma_words_v()
    ensures
        all_listed(WORDS_V@, 'v', 46),
{
    reveal_strlit(
        "\
        vacant\nvacuum\nvague\nvalid\nvalley\nvalve\nvan\nvanish\nvapor\nvarious\nvast\nvault\n\
        vehicle\nvelvet\nvendor\nventure\nvenue\nverb\nverify\nversion\nvery\nvessel\nveteran\n\
        viable\nvibrant\nvicious\nvictory\nvideo\nview\nvillage\nvintage\nviolin\nvirtual\n\
        virus\nvisa\nvisit\nvisual\nvital\nvivid\nvocal\nvoice\nvoid\nvolcano\nvolume\nvote\n\
        voyage\n",
    );
    let s = WORDS_V@;
    lemma_none(s, 'v');
    lemma_row(s, 'v', 0, 0, 0, 7, 14, 20, 26, 33, 39, 43, 50);
    lemma_row(s, 'v', 8, 43, 50, 56, 64, 69, 75, 83, 90, 97, 105);
    lemma_row(s, 'v', 16, 97, 105, 111, 116, 123, 131, 136, 143, 151, 158);
    lemma_row(s, 'v', 24, 151, 158, 166, 174, 182, 188, 193, 201, 209, 216);
    lemma_row(s, 'v', 32, 209, 216, 224, 230, 235, 241, 248, 254, 260, 266);
    lemma_line(s, 'v', 40, 260, 266, 272);
    lemma_line(s, 'v', 41, 266, 272, 277);
    lemma_line(s, 'v', 42, 272, 277, 285);
    lemma_line(s, 'v', 43, 277, 285, 292);
    lemma_line(s, 'v', 44, 285, 292, 297);
    lemma_line(s, 'v', 45, 292, 297, 304);
}

/// The words that begin with w: 69 of them.
proof fn lemma_words_w()
    ensures
        all_listed(WORDS_W@, 'w', 69),
{
    reveal_strlit(
        "\
        wage\nwagon\nwait\nwalk\nwall\nwalnut\nwant\nwarfare\nwarm\nwarrior\nwash\nwasp\nwaste\n\
        water\nwave\nway\nwealth\nweapon\nwear\nweasel\nweather\nweb\nwedding\nweekend\nweird\n\
        welcome\nwest\nwet\nwhale\nwhat\nwheat\nwheel\nwhen\nwhere\nwhip\nwhisper\nwide\nwidth\n\
        wife\nwild\nwill\nwin\nwindow\nwine\nwing\nwink\nwinner\nwinter\nwire\nwisdom\nwise\n\
        wish\nwitness\nwolf\nwoman\nwonder\nwood\nwool\nword\nwork\nworld\nworry\nworth\nwrap\n\
        wreck\nwrestle\nwrist\nwrite\nwrong\n",
    );
    let s = WORDS_W@;
    lemma_none(s, 'w');
    lemma_row(s, 'w', 0, 0, 0, 5, 11, 16, 21, 26, 33, 38, 46);
    lemma_row(s, 'w', 8, 38, 46, 51, 59, 64, 69, 75, 81, 86, 90);
    lemma_row(s, 'w', 16, 86, 90, 97, 104, 109, 116, 124, 128, 136, 144);
    lemma_row(s, 'w', 24, 136, 144, 150, 158, 163, 167, 173, 178, 184, 190);
    lemma_row(s, 'w', 32, 184, 190, 195, 201, 206, 214, 219, 225, 230, 235);
    lemma_row(s, 'w', 40, 230, 235, 240, 244, 251, 256, 261, 266, 273, 280);
    lemma_row(s, 'w', 48, 273, 280, 285, 292, 297, 302, 310, 315, 321, 328);
    lemma_row(s, 'w', 56, 321, 328, 333, 338, 343, 348, 354, 360, 366, 371);
    lemma_line(s, 'w', 64, 366, 371, 377);
    lemma_line(s, 'w', 65, 371, 377, 385);
    lemma_line(s, 'w', 66, 377, 385, 391);
    lemma_line(s, 'w', 67, 385, 391, 397);
    lemma_line(s, 'w', 68, 391, 397, 403);
}

/// The words that begin with y: 6 of them.
proof fn lemma_words_y()
    ensures
        all_listed(WORDS_Y@, 'y', 6),
{
    reveal_strlit(
        "\
        yard\nyear\nyellow\nyou\nyoung\nyouth\n",
    );
    let s = WORDS_Y@;
    lemma_none(s, 'y');
    lemma_line(s, 'y', 0, 0, 0, 5);
    lemma_line(s, 'y', 1, 0, 5, 10);
    lemma_line(s, 'y', 2, 5, 10, 17);
    lemma_line(s, 'y', 3, 10, 17, 21);
    lemma_line(s, 'y', 4, 17, 21, 27);
    lemma_line(s, 'y', 5, 21, 27, 33);
}

/// The words that begin with z: 4 of them.
proof fn lemma_words_z()
    ensures
        all_listed(WORDS_Z@, 'z', 4),
{
    reveal_strlit(
        "\
        zebra\nzero\nzone\nzoo\n",
    );
    let s = WORDS_Z@;
    lemma_none(s, 'z');
    lemma_line(s, 'z', 0, 0, 0, 6);
    lemma_line(s, 'z', 1, 0, 6, 11);
    lemma_line(s, 'z', 2, 6, 11, 16);
    lemma_line(s, 'z', 3, 11, 16, 20);
}

/// The 2048 English words of BIP-39 in ascending order, one on a line.
pub open spec fn wordlist_text() -> Seq<char> {
    WORDS_A@ + WORDS_B@ + WORDS_C@ + WORDS_D@ + WORDS_E@ + WORDS_F@ + WORDS_G@ + WORDS_H@
        + WORDS_I@ + WORDS_J@ + WORDS_K@ + WORDS_L@ + WORDS_M@ + WORDS_N@ + WORDS_O@ + WORDS_P@
        + WORDS_Q@ + WORDS_R@ + WORDS_S@ + WORDS_T@ + WORDS_U@ + WORDS_V@ + WORDS_W@ + WORDS_Y@
        + WORDS_Z@
}

/// The list is one that can be used, and its words need no escapes.
pub proof fn law_wordlist_is_valid()
    ensures
        valid_wordlist(words_of(wordlist_text())),
        forall|i: int| 0 <= i < 2048 ==> is_plain_word(#[trigger] words_of(wordlist_text())[i]),
{
    let t = Seq::<char>::empty();
    lemma_gathered_none();
    lemma_words_a();
    lemma_gathered(t, WORDS_A@, 0, 136, 'a', 'a');
    let t = t + WORDS_A@;
    lemma_words_b();
    lemma_gathered(t, WORDS_B@, 136, 117, 'a', 'b');
    let t = t + WORDS_B@;
    lemma_words_c();
    lemma_gathered(t, WORDS_C@, 253, 186, 'b', 'c');
    let t = t + WORDS_C@;
    lemma_words_d();
    lemma_gathered(t, WORDS_D@, 439, 112, 'c', 'd');
    let t = t + WORDS_D@;
    lemma_words_e();
    lemma_gathered(t, WORDS_E@, 551, 100, 'd', 'e');
    let t = t + WORDS_E@;
    lemma_words_f();
    lemma_gathered(t, WORDS_F@, 651, 106, 'e', 'f');
    let t = t + WORDS_F@;
    lemma_words_g();
    lemma_gathered(t, WORDS_G@, 757, 76, 'f', 'g');
    let t = t + WORDS_G@;
    lemma_words_h();
    lemma_gathered(t, WORDS_H@, 833, 64, 'g', 'h');
    let t = t + WORDS_H@;
    lemma_words_i();
    lemma_gathered(t, WORDS_I@, 897, 55, 'h', 'i');
    let t = t + WORDS_I@;
    lemma_words_j();
    lemma_gathered(t, WORDS_J@, 952, 20, 'i', 'j');
    let t = t + WORDS_J@;
    lemma_words_k();
    lemma_gathered(t, WORDS_K@, 972, 20, 'j', 'k');
    let t = t + WORDS_K@;
    lemma_words_l();
    lemma_gathered(t, WORDS_L@, 992, 76, 'k', 'l');
    let t = t + WORDS_L@;
    lemma_words_m();
    lemma_gathered(t, WORDS_M@, 1068, 105, 'l', 'm');
    let t = t + WORDS_M@;
    lemma_words_n();
    lemma_gathered(t, WORDS_N@, 1173, 41, 'm', 'n');
    let t = t + WORDS_N@;
    lemma_words_o();
    lemma_gathered(t, WORDS_O@, 1214, 55, 'n', 'o');
    let t = t + WORDS_O@;
    lemma_words_p();
    lemma_gathered(t, WORDS_P@, 1269, 132, 'o', 'p');
    let t = t + WORDS_P@;
    lemma_words_q();
    lemma_gathered(t, WORDS_Q@, 1401, 8, 'p', 'q');
    let t = t + WORDS_Q@;
    lemma_words_r();
    lemma_gathered(t, WORDS_R@, 1409, 108, 'q', 'r');
    let t = t + WORDS_R@;
    lemma_words_s();
    lemma_gathered(t, WORDS_S@, 1517, 250, 'r', 's');
    let t = t + WORDS_S@;
    lemma_words_t();
    lemma_gathered(t, WORDS_T@, 1767, 121, 's', 't');
    let t = t + WORDS_T@;
    lemma_words_u();
    lemma_gathered(t, WORDS_U@, 1888, 35, 't', 'u');
    let t = t + WORDS_U@;
    lemma_words_v();
    lemma_gathered(t, WORDS_V@, 1923, 46, 'u', 'v');
    let t = t + WORDS_V@;
    lemma_words_w();
    lemma_gathered(t, WORDS_W@, 1969, 69, 'v', 'w');
    let t = t + WORDS_W@;
    lemma_words_y();
    lemma_gathered(t, WORDS_Y@, 2038, 6, 'w', 'y');
    let t = t + WORDS_Y@;
    lemma_words_z();
    lemma_gathered(t, WORDS_Z@, 2044, 4, 'y', 'z');
    let t = t + WORDS_Z@;
    assert(t =~= wordlist_text());
    reveal(gathered);
}

/// The 2048 English words of BIP-39 in ascending order, one on a line.
pub fn bip39_wordlist_txt() -> (r: String)
    ensures
        r@ == wordlist_text(),
        valid_wordlist(words_of(r@)),
        forall|i: int| 0 <= i < 2048 ==> is_plain_word(#[trigger] words_of(r@)[i]),
{
    proof {
        law_wordlist_is_valid();
    }
    let mut s = WORDS_A.to_owned();
    s.append(WORDS_B);
    s.append(WORDS_C);
    s.append(WORDS_D);
    s.append(WORDS_E);
    s.append(WORDS_F);
    s.append(WORDS_G);
    s.append(WORDS_H);
    s.append(WORDS_I);
    s.append(WORDS_J);
    s.append(WORDS_K);
    s.append(WORDS_L);
    s.append(WORDS_M);
    s.append(WORDS_N);
    s.append(WORDS_O);
    s.append(WORDS_P);
    s.append(WORDS_Q);
    s.append(WORDS_R);
    s.append(WORDS_S);
    s.append(WORDS_T);
    s.append(WORDS_U);
    s.append(WORDS_V);
    s.append(WORDS_W);
    s.append(WORDS_Y);
    s.append(WORDS_Z);
    s
}

} // verus!
